use vstd::prelude::*;

use crate::dfa::DFA;
use crate::nfa::paths::{accepts, fpath, lemma_append, path, rest};
use crate::nfa::{State, TransitionKind};

verus! {

/// The ids of `ids`, as a set.
pub open spec fn id_set(ids: Seq<usize>) -> Set<int> {
    Set::new(|v: int| exists|j: int| 0 <= j < ids.len() && #[trigger] ids[j] == v)
}

/// The epsilon-closure of `set`: every state reachable from one of its
/// states without reading a character.
pub open spec fn eclose(g: Seq<State>, set: Set<int>) -> Set<int> {
    Set::new(|v: int| exists|u: int| set.contains(u) && #[trigger] path(g, u, Seq::empty(), v))
}

/// The targets of the transitions labelled `c` that leave the states of
/// `set`.
pub open spec fn step(g: Seq<State>, set: Set<int>, c: char) -> Set<int> {
    Set::new(
        |w: int|
            exists|u: int, i: int|
                set.contains(u) && 0 <= u < g.len() && 0 <= i < g[u].transitions().len()
                    && #[trigger] g[u].transitions()[i].to_id == w && g[u].transitions()[i].kind
                    == TransitionKind::Literal(c),
    )
}

/// The states reachable from `set` by reading `s`, one closure and one
/// character at a time.
pub open spec fn reach(g: Seq<State>, set: Set<int>, s: Seq<char>) -> Set<int>
    decreases s.len(),
{
    if s.len() == 0 {
        eclose(g, set)
    } else {
        reach(g, step(g, eclose(g, set), s[0]), s.drop_first())
    }
}

/// The states of the nondeterministic automaton that state `i` of `d`
/// stands for.
pub open spec fn subset_of(d: DFA, i: int) -> Set<int> {
    id_set(d.spec_states()[i].nfa_states@)
}

/// Some state of `set` is an accepting state of `g`.
pub open spec fn has_accept(g: Seq<State>, set: Set<int>) -> bool {
    exists|v: int| set.contains(v) && 0 <= v < g.len() && #[trigger] g[v].is_accept()
}

/// State `i` of `d` is the subset-construction state of its subset: the
/// subset is closed, the state accepts when the subset holds an accepting
/// state, and each transition leads to the closure of the subset's step on
/// its character, with no transition exactly where that step is empty.
pub open spec fn state_simulates(d: DFA, g: Seq<State>, i: int) -> bool {
    let t = subset_of(d, i);
    &&& eclose(g, t) == t
    &&& d.spec_states()[i].is_match == has_accept(g, t)
    &&& transitions_follow(d, g, i)
}

/// Each transition of state `i` of `d` leads to the closure of the step of
/// its subset on the transition's character; there is no transition exactly
/// where that step is empty.
pub open spec fn transitions_follow(d: DFA, g: Seq<State>, i: int) -> bool {
    forall|c: char|
        match #[trigger] d.spec_next(i, c) {
            None => step(g, subset_of(d, i), c) == Set::<int>::empty(),
            Some(j) => j < d.spec_states().len() && subset_of(d, j as int) == eclose(
                g,
                step(g, subset_of(d, i), c),
            ),
        }
}

/// `d` is a subset construction of `g` from `start`: it starts at state 0,
/// whose subset is the closure of `start`, and every state simulates.
pub open spec fn simulates(d: DFA, g: Seq<State>, start: int) -> bool {
    &&& d.spec_start() == Some(0usize)
    &&& d.spec_states().len() > 0
    &&& subset_of(d, 0) == eclose(g, set![start])
    &&& forall|i: int| 0 <= i < d.spec_states().len() ==> #[trigger] state_simulates(d, g, i)
}

/// `d` is the subset construction of `g` from `start`: it simulates `g`, no
/// two of its states stand for the same subset, and each state stands for
/// the non-empty subset reached from `start` by some string.
pub open spec fn subset_construction(d: DFA, g: Seq<State>, start: int) -> bool {
    &&& simulates(d, g, start)
    &&& forall|i: int, j: int|
        0 <= i < d.spec_states().len() && 0 <= j < d.spec_states().len() && i != j ==> subset_of(d, i)
            != subset_of(d, j)
    &&& forall|i: int|
        0 <= i < d.spec_states().len() ==> #[trigger] subset_of(d, i) != Set::<int>::empty()
            && exists|w: Seq<char>| subset_of(d, i) == reach(g, set![start], w)
}

/// Reading one more character closes the step of what was reached.
pub proof fn lemma_reach_push(g: Seq<State>, set: Set<int>, w: Seq<char>, c: char)
    ensures
        reach(g, set, w.push(c)) == eclose(g, step(g, reach(g, set, w), c)),
    decreases w.len(),
{
    if w.len() == 0 {
        assert(w.push(c) =~= seq![c]);
        assert(seq![c].drop_first() =~= Seq::<char>::empty());
        assert(seq![c][0] == c);
        assert(reach(g, set, seq![c]) == reach(g, step(g, eclose(g, set), c), Seq::<char>::empty()));
        assert(reach(g, set, w) == eclose(g, set));
    } else {
        assert(w.push(c).drop_first() =~= w.drop_first().push(c));
        assert(w.push(c)[0] == w[0]);
        lemma_reach_push(g, step(g, eclose(g, set), w[0]), w.drop_first(), c);
    }
}

/// Determinism: two subset constructions of the same automaton are the same
/// automaton up to the numbering of their states. Each state of one has a
/// state of the other with the same subset, and states with the same subset
/// agree on acceptance and on which transitions exist, whose targets again
/// share their subset. As neither repeats a subset, this matching is a
/// bijection that maps start to start.
pub proof fn lemma_isomorphic(d1: DFA, d2: DFA, g: Seq<State>, start: int)
    requires
        subset_construction(d1, g, start),
        subset_construction(d2, g, start),
    ensures
        forall|i: int|
            0 <= i < d1.spec_states().len() ==> exists|j: int|
                0 <= j < d2.spec_states().len() && #[trigger] subset_of(d2, j) == #[trigger] subset_of(
                    d1,
                    i,
                ),
        subset_of(d1, 0) == subset_of(d2, 0),
        forall|i: int, j: int, c: char|
            0 <= i < d1.spec_states().len() && 0 <= j < d2.spec_states().len() && subset_of(d1, i)
                == subset_of(d2, j) ==> {
                &&& d1.spec_states()[i].is_match == d2.spec_states()[j].is_match
                &&& (#[trigger] d1.spec_next(i, c) is None <==> #[trigger] d2.spec_next(j, c) is None)
                &&& (d1.spec_next(i, c) matches Some(i2) ==> d2.spec_next(j, c) matches Some(j2)
                    && subset_of(d1, i2 as int) == subset_of(d2, j2 as int))
            },
{
    assert forall|i: int| 0 <= i < d1.spec_states().len() implies exists|j: int|
        0 <= j < d2.spec_states().len() && #[trigger] subset_of(d2, j) == #[trigger] subset_of(
            d1,
            i,
        ) by {
        assert(subset_of(d1, i) != Set::<int>::empty());
        let w = choose|w: Seq<char>| subset_of(d1, i) == reach(g, set![start], w);
        lemma_run(d2, g, start, 0, w);
        lemma_reach_closure(g, set![start], w);
        match d2.run(0, w) {
            Some(j) => {
                assert(subset_of(d2, j) == subset_of(d1, i));
            },
            None => {},
        }
    }
    assert forall|i: int, j: int, c: char|
        0 <= i < d1.spec_states().len() && 0 <= j < d2.spec_states().len() && subset_of(d1, i)
            == subset_of(d2, j) implies {
            &&& d1.spec_states()[i].is_match == d2.spec_states()[j].is_match
            &&& (#[trigger] d1.spec_next(i, c) is None <==> #[trigger] d2.spec_next(j, c) is None)
            &&& (d1.spec_next(i, c) matches Some(i2) ==> d2.spec_next(j, c) matches Some(j2)
                && subset_of(d1, i2 as int) == subset_of(d2, j2 as int))
        } by {
        assert(state_simulates(d1, g, i));
        assert(state_simulates(d2, g, j));
        assert(transitions_follow(d1, g, i));
        assert(transitions_follow(d2, g, j));
        let t = subset_of(d1, i);
        assert(eclose(g, Set::<int>::empty()) =~= Set::<int>::empty());
        match d1.spec_next(i, c) {
            Some(i2) => {
                assert(subset_of(d1, i2 as int) != Set::<int>::empty());
            },
            None => {},
        }
        match d2.spec_next(j, c) {
            Some(j2) => {
                assert(subset_of(d2, j2 as int) != Set::<int>::empty());
            },
            None => {},
        }
    }
}

/// Closing a closed set changes nothing.
pub proof fn lemma_eclose_idempotent(g: Seq<State>, set: Set<int>)
    ensures
        eclose(g, eclose(g, set)) == eclose(g, set),
{
    let n = g.len() as int;
    let e = Seq::<char>::empty();
    let once = eclose(g, set);
    assert forall|v: int| #[trigger] eclose(g, once).contains(v) <==> once.contains(v) by {
        if once.contains(v) {
            assert(fpath(g, 0, n, -1, v, e, v, 0));
            assert(path(g, v, e, v));
        }
        if eclose(g, once).contains(v) {
            let u = choose|u: int| once.contains(u) && #[trigger] path(g, u, e, v);
            let x = choose|x: int| set.contains(x) && #[trigger] path(g, x, e, u);
            let k1 = choose|k: nat| #[trigger] fpath(g, 0, n, -1, x, e, u, k);
            let k2 = choose|k: nat| #[trigger] fpath(g, 0, n, -1, u, e, v, k);
            lemma_append(g, 0, n, -1, x, e, u, k1, e, v, k2);
            assert(e + e =~= e);
            assert(path(g, x, e, v));
        }
    }
    assert(eclose(g, once) =~= once);
}

/// A walk that reads at least one character first moves without reading to
/// a state `r.0` whose transition `r.1` reads the first character and leads
/// to where a walk reading the rest begins.
proof fn lemma_first_letter(g: Seq<State>, u: int, s: Seq<char>, v: int, k: nat) -> (r: (int, int))
    requires
        fpath(g, 0, g.len() as int, -1, u, s, v, k),
        s.len() > 0,
    ensures
        path(g, u, Seq::empty(), r.0),
        0 <= r.0 < g.len(),
        0 <= r.1 < g[r.0].transitions().len(),
        g[r.0].transitions()[r.1].kind == TransitionKind::Literal(s[0]),
        path(g, g[r.0].transitions()[r.1].to_id as int, s.drop_first(), v),
    decreases k,
{
    let n = g.len() as int;
    let e = Seq::<char>::empty();
    let ts = g[u].transitions();
    let i = choose|i: int|
        0 <= i < ts.len() && #[trigger] rest(ts[i].kind, s) is Some && fpath(
            g,
            0,
            n,
            -1,
            ts[i].to_id as int,
            rest(ts[i].kind, s)->0,
            v,
            (k - 1) as nat,
        );
    assert(fpath(g, 0, n, -1, u, e, u, 0));
    if ts[i].kind is Epsilon {
        let r = lemma_first_letter(g, ts[i].to_id as int, s, v, (k - 1) as nat);
        let k1 = choose|k: nat| #[trigger] fpath(g, 0, n, -1, ts[i].to_id as int, e, r.0, k);
        assert(rest(ts[i].kind, e) == Some(e));
        assert(fpath(g, 0, n, -1, u, e, r.0, k1 + 1));
        r
    } else {
        assert(fpath(g, 0, n, -1, ts[i].to_id as int, s.drop_first(), v, (k - 1) as nat));
        (u, i)
    }
}

/// The subset reached by reading `s` holds exactly the ends of the walks
/// from the states of `set` that read `s`.
pub proof fn lemma_reach_paths(g: Seq<State>, set: Set<int>, s: Seq<char>)
    ensures
        forall|v: int|
            #[trigger] reach(g, set, s).contains(v) <==> exists|u: int|
                set.contains(u) && #[trigger] path(g, u, s, v),
    decreases s.len(),
{
    let n = g.len() as int;
    let e = Seq::<char>::empty();
    if s.len() > 0 {
        let c = s[0];
        let tail = s.drop_first();
        let next = step(g, eclose(g, set), c);
        lemma_reach_paths(g, next, tail);
        assert(reach(g, set, s) == reach(g, next, tail));
        assert forall|v: int|
            #[trigger] reach(g, set, s).contains(v) <==> exists|u: int|
                set.contains(u) && #[trigger] path(g, u, s, v) by {
            if reach(g, set, s).contains(v) {
                assert(reach(g, next, tail).contains(v));
                let w = choose|w: int| next.contains(w) && #[trigger] path(g, w, tail, v);
                let (x, i) = choose|x: int, i: int|
                    eclose(g, set).contains(x) && 0 <= x < g.len() && 0 <= i
                        < g[x].transitions().len() && #[trigger] g[x].transitions()[i].to_id == w
                        && g[x].transitions()[i].kind == TransitionKind::Literal(c);
                let u = choose|u: int| set.contains(u) && #[trigger] path(g, u, e, x);
                let k1 = choose|k: nat| #[trigger] fpath(g, 0, n, -1, u, e, x, k);
                let k2 = choose|k: nat| #[trigger] fpath(g, 0, n, -1, w, tail, v, k);
                assert(rest(g[x].transitions()[i].kind, s) == Some(tail));
                assert(fpath(g, 0, n, -1, x, s, v, k2 + 1));
                lemma_append(g, 0, n, -1, u, e, x, k1, s, v, k2 + 1);
                assert(e + s =~= s);
                assert(path(g, u, s, v));
            }
            if exists|u: int| set.contains(u) && #[trigger] path(g, u, s, v) {
                let u = choose|u: int| set.contains(u) && #[trigger] path(g, u, s, v);
                let k = choose|k: nat| #[trigger] fpath(g, 0, n, -1, u, s, v, k);
                let r = lemma_first_letter(g, u, s, v, k);
                let w = g[r.0].transitions()[r.1].to_id as int;
                assert(eclose(g, set).contains(r.0));
                assert(next.contains(w));
                assert(reach(g, next, tail).contains(v));
            }
        }
    } else {
        assert(s =~= e);
    }
}

/// A set and its closure reach the same states.
pub proof fn lemma_reach_closure(g: Seq<State>, set: Set<int>, s: Seq<char>)
    ensures
        reach(g, eclose(g, set), s) == reach(g, set, s),
{
    lemma_eclose_idempotent(g, set);
}

/// Nothing is reached from the empty set.
pub proof fn lemma_reach_empty(g: Seq<State>, s: Seq<char>)
    ensures
        reach(g, Set::<int>::empty(), s) == Set::<int>::empty(),
    decreases s.len(),
{
    assert(eclose(g, Set::<int>::empty()) =~= Set::<int>::empty());
    if s.len() > 0 {
        assert(step(g, Set::<int>::empty(), s[0]) =~= Set::<int>::empty());
        lemma_reach_empty(g, s.drop_first());
    }
}

/// Running a simulating automaton from state `i` tracks the subset reached
/// from that state's subset; it stops only where that subset is empty.
pub proof fn lemma_run(d: DFA, g: Seq<State>, start: int, i: int, s: Seq<char>)
    requires
        simulates(d, g, start),
        0 <= i < d.spec_states().len(),
    ensures
        match d.run(i, s) {
            Some(j) => 0 <= j < d.spec_states().len() && subset_of(d, j) == reach(
                g,
                subset_of(d, i),
                s,
            ),
            None => reach(g, subset_of(d, i), s) == Set::<int>::empty(),
        },
    decreases s.len(),
{
    let t = subset_of(d, i);
    assert(state_simulates(d, g, i));
    assert(transitions_follow(d, g, i));
    if s.len() > 0 {
        let c = s[0];
        let tail = s.drop_first();
        assert(reach(g, t, s) == reach(g, step(g, t, c), tail));
        match d.spec_next(i, c) {
            None => {
                lemma_reach_empty(g, tail);
            },
            Some(j) => {
                lemma_run(d, g, start, j as int, tail);
                lemma_reach_closure(g, step(g, t, c), tail);
            },
        }
    }
}

/// A simulating automaton accepts exactly the strings that the
/// nondeterministic automaton accepts.
pub proof fn lemma_simulates_accepts(d: DFA, g: Seq<State>, start: int, s: Seq<char>)
    requires
        simulates(d, g, start),
    ensures
        d.accepts_word(s) == accepts(g, start, s),
{
    lemma_run(d, g, start, 0, s);
    lemma_reach_closure(g, set![start], s);
    lemma_reach_paths(g, set![start], s);
    let r = reach(g, set![start], s);
    if accepts(g, start, s) {
        let v = choose|v: int| 0 <= v < g.len() && #[trigger] g[v].is_accept() && path(g, start, s, v);
        assert(set![start].contains(start));
        assert(r.contains(v));
        match d.run(0, s) {
            Some(j) => {
                assert(state_simulates(d, g, j));
                assert(has_accept(g, subset_of(d, j)));
            },
            None => {
                assert(r.contains(v));
            },
        }
    }
    if d.accepts_word(s) {
        let j = d.run(0, s)->0;
        assert(state_simulates(d, g, j));
        let v = choose|v: int| subset_of(d, j).contains(v) && 0 <= v < g.len() && #[trigger] g[v].is_accept();
        assert(r.contains(v));
        let u = choose|u: int| set![start].contains(u) && #[trigger] path(g, u, s, v);
        assert(u == start);
    }
}

} // verus!
