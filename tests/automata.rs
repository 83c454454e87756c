use regex::ast::{Ast, Repetition};
use regex::dfa::determinize::Determinizer;
use regex::dfa::{State, StateID};
use regex::error::ErrorKind;
use regex::nfa::{self, TransitionKind, NFA};

#[test]
fn test_build() {
    let mut nfa = NFA::new();
    let _start = nfa.add_state(nfa::State::Transition(vec![
        nfa::Transition {
            to_id: 1,
            kind: TransitionKind::Literal('0'),
        },
        nfa::Transition {
            to_id: 2,
            kind: TransitionKind::Epsilon,
        },
    ]));
    let _one = nfa.add_state(nfa::State::Transition(vec![
        nfa::Transition {
            to_id: 1,
            kind: TransitionKind::Literal('1'),
        },
        nfa::Transition {
            to_id: 3,
            kind: TransitionKind::Literal('1'),
        },
    ]));
    let _two = nfa.add_state(nfa::State::Transition(vec![
        nfa::Transition {
            to_id: 1,
            kind: TransitionKind::Epsilon,
        },
        nfa::Transition {
            to_id: 3,
            kind: TransitionKind::Literal('0'),
        },
    ]));

    let _three = nfa.add_state(nfa::State::Transition(vec![nfa::Transition {
        to_id: 2,
        kind: TransitionKind::Literal('0'),
    }]));

    nfa.make_accept(2).unwrap();
    nfa.make_accept(3).unwrap();

    let mut determinizer = Determinizer::new(&nfa);
    determinizer.build().unwrap();

    let dfa = &determinizer.dfa;

    let expected_states = vec![
        State {
            id: 0,
            is_match: true,
            nfa_states: vec![0, 2, 1],
        },
        State {
            id: 1,
            is_match: true,
            nfa_states: vec![3, 1],
        },
        State {
            id: 2,
            is_match: true,
            nfa_states: vec![2, 1],
        },
        State {
            id: 3,
            is_match: true,
            nfa_states: vec![3],
        },
    ];

    let expected_transitions = vec![
        (0, '1', 1),
        (0, '0', 1),
        (1, '1', 1),
        (1, '0', 2),
        (2, '0', 3),
        (2, '1', 1),
        (3, '0', 2),
    ];

    for expected_state in expected_states.clone() {
        let state = dfa.state(expected_state.id).unwrap();
        assert_eq!(state.is_match, expected_state.is_match);
        assert_eq!(state.nfa_states, expected_state.nfa_states);
    }

    for (from, input, to) in expected_transitions {
        assert_eq!(dfa.next(from, input), Some(to));
    }

    let expected_accepts: Vec<StateID> = expected_states.iter().map(|s| s.id).collect();
    assert_eq!(dfa.accepts(), expected_accepts);
}

fn thompson(ast: &Ast) -> NFA {
    let mut nfa = NFA::new();
    nfa.build(ast).unwrap();
    nfa
}

fn syntax_error(ast: &Ast) -> bool {
    let mut nfa = NFA::new();
    match nfa.build(ast) {
        Ok(()) => false,
        Err(e) => matches!(e.kind(), ErrorKind::SyntaxError(_)),
    }
}

#[test]
fn builder_rejects_malformed_trees() {
    assert!(syntax_error(&Ast::Concat(vec![])));
    assert!(syntax_error(&Ast::Alternate(vec![])));
    assert!(syntax_error(&Ast::Repetition(Repetition { ast: Box::new(Ast::Literal('a')), min: 2, max: None })));
    assert!(syntax_error(&Ast::Repetition(Repetition { ast: Box::new(Ast::Literal('a')), min: 0, max: Some(3) })));
    assert!(syntax_error(&Ast::Concat(vec![Ast::Literal('a'), Ast::Alternate(vec![])])));
}

#[test]
fn literal_builds_two_states_one_accepting() {
    let nfa = thompson(&Ast::Literal('x'));
    assert_eq!(nfa.states_count(), 2);
    assert_eq!(nfa.start(), 0);
    assert!(!nfa.is_accept(0));
    assert!(nfa.is_accept(1));
    let t = &nfa.state(0).unwrap().as_transitions()[0];
    assert_eq!(t.to_id, 1);
    assert_eq!(t.kind, TransitionKind::Literal('x'));
}

#[test]
fn thompson_automaton_has_one_accepting_state() {
    let ast = Ast::Concat(vec![
        Ast::Literal('a'),
        Ast::Repetition(Repetition {
            ast: Box::new(Ast::Alternate(vec![Ast::Literal('b'), Ast::Literal('c')])),
            min: 0,
            max: None,
        }),
    ]);
    let nfa = thompson(&ast);
    let accepting = (0..nfa.states_count()).filter(|&i| nfa.is_accept(i)).count();
    assert_eq!(accepting, 1);
}

fn snapshot(nfa: &NFA) -> Vec<(bool, Vec<usize>, Vec<(char, Option<usize>)>)> {
    let mut determinizer = Determinizer::new(nfa);
    determinizer.build().unwrap();
    let dfa = determinizer.dfa;
    let alphabet = ['a', 'b', 'c', 'd'];
    let mut out = Vec::new();
    let mut id = 0;
    while let Some(state) = dfa.state(id) {
        let row = alphabet.iter().map(|&c| (c, dfa.next(id, c))).collect();
        out.push((state.is_match, state.nfa_states.clone(), row));
        id += 1;
    }
    out
}

#[test]
fn determinizing_twice_gives_the_same_automaton() {
    let nfa = thompson(&Ast::Concat(vec![
        Ast::Literal('a'),
        Ast::Repetition(Repetition {
            ast: Box::new(Ast::Alternate(vec![Ast::Literal('b'), Ast::Literal('c')])),
            min: 1,
            max: None,
        }),
        Ast::Literal('d'),
    ]));
    assert_eq!(snapshot(&nfa), snapshot(&nfa));
}

#[test]
fn no_two_states_share_a_subset() {
    let nfa = thompson(&Ast::Repetition(Repetition {
        ast: Box::new(Ast::Alternate(vec![
            Ast::Concat(vec![Ast::Literal('a'), Ast::Literal('b')]),
            Ast::Literal('a'),
        ])),
        min: 0,
        max: None,
    }));
    let states = snapshot(&nfa);
    let mut sets: Vec<Vec<usize>> = states
        .iter()
        .map(|(_, ids, _)| {
            let mut ids = ids.clone();
            ids.sort();
            ids
        })
        .collect();
    let before = sets.len();
    sets.sort();
    sets.dedup();
    assert_eq!(sets.len(), before);
}

#[test]
fn start_state_is_the_closure_of_the_start() {
    // a?: entry 0 goes to the inner entry 2 and to the exit 1
    let nfa = thompson(&Ast::Repetition(Repetition { ast: Box::new(Ast::Literal('a')), min: 0, max: Some(1) }));
    let mut determinizer = Determinizer::new(&nfa);
    determinizer.build().unwrap();
    let start = determinizer.dfa.state(0).unwrap();
    let mut ids = start.nfa_states.clone();
    ids.sort();
    assert_eq!(ids, vec![0, 1, 2]);
    assert!(start.is_match);
    let after = determinizer.dfa.next(0, 'a').unwrap();
    let mut ids = determinizer.dfa.state(after).unwrap().nfa_states.clone();
    ids.sort();
    assert_eq!(ids, vec![1, 3]);
    assert!(determinizer.dfa.next(after, 'a').is_none());
}

#[test]
fn every_subset_is_closed_under_epsilon_moves() {
    let nfa = thompson(&Ast::Concat(vec![
        Ast::Repetition(Repetition { ast: Box::new(Ast::Literal('a')), min: 0, max: None }),
        Ast::Repetition(Repetition { ast: Box::new(Ast::Literal('b')), min: 0, max: Some(1) }),
        Ast::Alternate(vec![Ast::Literal('c'), Ast::Literal('d')]),
    ]));
    let mut determinizer = Determinizer::new(&nfa);
    determinizer.build().unwrap();
    let dfa = &determinizer.dfa;
    let mut id = 0;
    while let Some(state) = dfa.state(id) {
        for &u in &state.nfa_states {
            for t in nfa.state(u).unwrap().as_transitions() {
                if t.kind == TransitionKind::Epsilon {
                    assert!(state.nfa_states.contains(&t.to_id), "state {} misses {}", id, t.to_id);
                }
            }
        }
        let accepting = state.nfa_states.iter().any(|&u| nfa.is_accept(u));
        assert_eq!(state.is_match, accepting);
        id += 1;
    }
    assert!(id >= 3);
}

#[test]
fn closing_a_closed_set_returns_the_same_set() {
    let nfa = thompson(&Ast::Repetition(Repetition {
        ast: Box::new(Ast::Concat(vec![
            Ast::Repetition(Repetition { ast: Box::new(Ast::Literal('a')), min: 0, max: Some(1) }),
            Ast::Literal('b'),
        ])),
        min: 0,
        max: None,
    }));
    let determinizer = Determinizer::new(&nfa);
    let once = determinizer.epsilon_closure(&vec![nfa.start()]);
    let twice = determinizer.epsilon_closure(&once);
    let mut a = once.clone();
    let mut b = twice.clone();
    a.sort();
    b.sort();
    assert_eq!(a, b);
    assert!(a.len() >= 3);
}

#[test]
fn builder_makes_two_states_per_node() {
    // a(b|c)*: literals a, b, c, one alternation, one repetition
    let ast = Ast::Concat(vec![
        Ast::Literal('a'),
        Ast::Repetition(Repetition {
            ast: Box::new(Ast::Alternate(vec![Ast::Literal('b'), Ast::Literal('c')])),
            min: 0,
            max: None,
        }),
    ]);
    let nfa = thompson(&ast);
    assert_eq!(nfa.states_count(), 10);
}

#[test]
fn failed_build_leaves_no_accepting_state() {
    let mut nfa = NFA::new();
    let ast = Ast::Concat(vec![Ast::Literal('a'), Ast::Alternate(vec![])]);
    assert!(nfa.build(&ast).is_err());
    assert!((0..nfa.states_count()).all(|i| !nfa.is_accept(i)));
}
