use regex::dfa::DFA;
use regex::error::ErrorKind;
use regex::nfa::{State, Transition, TransitionKind, NFA};

#[test]
fn test_dfa() {
    let mut dfa: DFA = DFA::new();

    let state0 = dfa.new_state(false, &vec![0]).unwrap();
    let state1 = dfa.new_state(false, &vec![1]).unwrap();
    let state2 = dfa.new_state(true, &vec![2]).unwrap();

    dfa.set_start(state0);

    dfa.add_transition(state0, 'a', state1);
    dfa.add_transition(state1, 'b', state2);

    assert_eq!(dfa.start(), Some(state0));
    assert_eq!(dfa.accepts(), vec![state2]);

    assert_eq!(dfa.next(state0, 'a'), Some(state1));
    assert_eq!(dfa.next(state1, 'b'), Some(state2));
    assert_eq!(dfa.next(state0, 'b'), None);
}

#[test]
fn later_transition_replaces_earlier() {
    let mut dfa = DFA::new();
    let s0 = dfa.new_state(false, &[0]).unwrap();
    let s1 = dfa.new_state(false, &[1]).unwrap();
    let s2 = dfa.new_state(true, &[2]).unwrap();
    dfa.add_transition(s0, 'x', s1);
    dfa.add_transition(s0, 'x', s2);
    assert_eq!(dfa.next(s0, 'x'), Some(s2));
    assert_eq!(dfa.next(7, 'x'), None);
    assert_eq!(dfa.state(s1).unwrap().nfa_states, vec![1]);
    assert!(dfa.state(3).is_none());
    assert_eq!(dfa.states_len(), 3);
    assert_eq!(dfa.start(), None);
}

#[test]
fn nfa_make_accept_out_of_range() {
    let mut nfa = NFA::new();
    match nfa.make_accept(3) {
        Ok(()) => panic!("no state 3"),
        Err(e) => assert!(matches!(e.kind(), ErrorKind::StateIDOverflow { max: 0 })),
    }
    let id = nfa.add_state(State::Transition(vec![Transition { to_id: 0, kind: TransitionKind::Epsilon }]));
    assert_eq!(id, 0);
    assert!(!nfa.is_accept(0));
    nfa.make_accept(0).unwrap();
    assert!(nfa.is_accept(0));
    assert!(!nfa.is_accept(1));
    assert_eq!(nfa.state(0).unwrap().as_transitions().len(), 1);
    assert_eq!(nfa.states_count(), 1);
    let t = nfa.state(0).unwrap().as_transitions()[0].clone();
    assert_eq!(t.to_id(), 0);
    assert_eq!(*t.kind(), TransitionKind::Epsilon);
}
