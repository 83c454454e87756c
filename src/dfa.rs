use vstd::prelude::*;

pub mod count;
pub mod determinize;
pub mod subset;

use crate::error::{Error, ErrorKind};
use crate::nfa;

verus! {

/// Index of a state of the deterministic automaton.
pub type StateID = usize;

/// A state of the deterministic automaton: its id, whether it accepts, and
/// the states of the nondeterministic automaton it stands for.
#[derive(Clone, Debug, PartialEq, Eq, Hash)]
pub struct State {
    pub id: StateID,
    pub is_match: bool,
    pub nfa_states: Vec<nfa::StateID>,
}

/// A deterministic automaton: states addressed by id, an optional start
/// state, and a partial transition function from (state, character) to
/// state. A missing transition rejects.
#[allow(clippy::upper_case_acronyms)]
#[derive(Debug)]
pub struct DFA {
    states: Vec<State>,
    start: Option<StateID>,
    transitions: Vec<Vec<(char, StateID)>>,
}

/// The target of the newest entry of `row` labelled `c`.
pub open spec fn row_lookup(row: Seq<(char, StateID)>, c: char) -> Option<StateID>
    decreases row.len(),
{
    if row.len() == 0 {
        None
    } else if row.last().0 == c {
        Some(row.last().1)
    } else {
        row_lookup(row.drop_last(), c)
    }
}

/// An entry for `c` stands in `row` wherever `row` has a transition on `c`.
proof fn lemma_row_lookup_found(row: Seq<(char, StateID)>, c: char)
    requires
        row_lookup(row, c) is Some,
    ensures
        exists|q: int| 0 <= q < row.len() && (#[trigger] row[q]).0 == c,
    decreases row.len(),
{
    if row.last().0 == c {
        assert(row[row.len() - 1].0 == c);
    } else {
        lemma_row_lookup_found(row.drop_last(), c);
        let q = choose|q: int| 0 <= q < row.len() - 1 && (#[trigger] row.drop_last()[q]).0 == c;
        assert(row[q] == row.drop_last()[q]);
    }
}

/// Entries after position `j` that are not labelled `c` do not change the
/// lookup of `c`.
proof fn lemma_row_lookup_suffix(row: Seq<(char, StateID)>, j: int, c: char)
    requires
        0 <= j <= row.len(),
        forall|q: int| j <= q < row.len() ==> (#[trigger] row[q]).0 != c,
    ensures
        row_lookup(row, c) == row_lookup(row.subrange(0, j), c),
    decreases row.len() - j,
{
    if j < row.len() {
        let longer = row.subrange(0, j + 1);
        assert(longer.drop_last() =~= row.subrange(0, j));
        assert(longer.last() == row[j]);
        lemma_row_lookup_suffix(row, j + 1, c);
    } else {
        assert(row.subrange(0, j) =~= row);
    }
}

/// The ids of the accepting states among `states`, in order.
pub open spec fn accepting_ids(states: Seq<State>) -> Seq<StateID>
    decreases states.len(),
{
    if states.len() == 0 {
        Seq::empty()
    } else {
        accepting_ids(states.drop_last()) + if states.last().is_match {
            seq![states.last().id]
        } else {
            Seq::empty()
        }
    }
}

impl DFA {
    /// The states, in order of creation.
    pub closed spec fn spec_states(&self) -> Seq<State> {
        self.states@
    }

    /// The start state, once set.
    pub closed spec fn spec_start(&self) -> Option<StateID> {
        self.start
    }

    /// The transition from `from` on `c`, if any.
    pub closed spec fn spec_next(&self, from: int, c: char) -> Option<StateID> {
        if 0 <= from < self.transitions@.len() {
            row_lookup(self.transitions@[from]@, c)
        } else {
            None
        }
    }

    /// Each state's id is its position.
    pub open spec fn ids_match(&self) -> bool {
        forall|i: int| 0 <= i < self.spec_states().len() ==> #[trigger] self.spec_states()[i].id == i
    }

    /// The state reached from `from` by reading `s`, or `None` when a
    /// transition is missing on the way.
    pub open spec fn run(&self, from: int, s: Seq<char>) -> Option<int>
        decreases s.len(),
    {
        if s.len() == 0 {
            Some(from)
        } else {
            match self.spec_next(from, s[0]) {
                Some(to) => self.run(to as int, s.drop_first()),
                None => None,
            }
        }
    }

    /// Reading all of `s` from the start ends in an accepting state.
    pub open spec fn accepts_word(&self, s: Seq<char>) -> bool {
        match self.spec_start() {
            Some(st) => match self.run(st as int, s) {
                Some(j) => 0 <= j < self.spec_states().len() && self.spec_states()[j].is_match,
                None => false,
            },
            None => false,
        }
    }

    pub fn new() -> (r: Self)
        ensures
            r.spec_states().len() == 0,
            r.spec_start() is None,
            forall|i: int, c: char| #[trigger] r.spec_next(i, c) is None,
    {
        Self { states: Vec::new(), start: None, transitions: Vec::new() }
    }

    pub fn set_start(&mut self, state_id: StateID)
        ensures
            final(self).spec_start() == Some(state_id),
            final(self).spec_states() == old(self).spec_states(),
            forall|i: int, c: char| #[trigger] final(self).spec_next(i, c) == old(self).spec_next(i, c),
    {
        self.start = Some(state_id);
    }

    /// Sets the transition from `from` on `input` to `to`, replacing any
    /// earlier one.
    pub fn add_transition(&mut self, from: StateID, input: char, to: StateID)
        ensures
            final(self).spec_states() == old(self).spec_states(),
            final(self).spec_start() == old(self).spec_start(),
            forall|i: int, c: char|
                #[trigger] final(self).spec_next(i, c) == if i == from && c == input {
                    Some(to)
                } else {
                    old(self).spec_next(i, c)
                },
    {
        let ghost old_rows = self.transitions@;
        while self.transitions.len() <= from
            invariant
                self.transitions@.len() >= old_rows.len(),
                forall|i: int| 0 <= i < old_rows.len() ==> #[trigger] self.transitions@[i] == old_rows[i],
                forall|i: int|
                    old_rows.len() <= i < self.transitions@.len() ==> (#[trigger] self.transitions@[i])@.len() == 0,
                self.states@ == old(self).states@,
                self.start == old(self).start,
                old_rows == old(self).transitions@,
            decreases from + 1 - self.transitions.len(),
        {
            self.transitions.push(Vec::new());
        }
        let ghost mid_rows = self.transitions@;
        self.transitions[from].push((input, to));
        proof {
            assert forall|i: int, c: char|
                #[trigger] self.spec_next(i, c) == if i == from && c == input {
                    Some(to)
                } else {
                    old(self).spec_next(i, c)
                } by {
                if i == from {
                    assert(self.transitions@[i]@.drop_last() == mid_rows[i]@);
                }
                if 0 <= i < self.transitions@.len() && i >= old_rows.len() && i != from {
                    assert(row_lookup(self.transitions@[i]@, c) is None);
                }
                if i == from && i >= old_rows.len() && c != input {
                    assert(row_lookup(mid_rows[i]@, c) is None);
                }
            }
        }
    }

    /// Adds a state and returns its id, the number of states before.
    pub fn new_state(&mut self, is_match: bool, nfa_states: &[nfa::StateID]) -> (r: Result<
        StateID,
        Error,
    >)
        ensures
            old(self).spec_states().len() < usize::MAX ==> r == Ok::<StateID, Error>(
                old(self).spec_states().len() as StateID,
            ),
            old(self).spec_states().len() >= usize::MAX ==> (r matches Err(e) && e@
                == (ErrorKind::StateIDOverflow { max: usize::MAX })),
            r is Ok ==> {
                &&& final(self).spec_states().len() == old(self).spec_states().len() + 1
                &&& final(self).spec_states().drop_last() == old(self).spec_states()
                &&& final(self).spec_states().last().id == old(self).spec_states().len()
                &&& final(self).spec_states().last().is_match == is_match
                &&& final(self).spec_states().last().nfa_states@ == nfa_states@
            },
            r is Err ==> final(self).spec_states() == old(self).spec_states() && old(self).spec_states().len() == usize::MAX,
            final(self).spec_start() == old(self).spec_start(),
            forall|i: int, c: char| #[trigger] final(self).spec_next(i, c) == old(self).spec_next(i, c),
    {
        let id = self.states.len();
        if id >= usize::MAX {
            return Err(Error::state_id_overflow(usize::MAX));
        }
        let mut owned: Vec<nfa::StateID> = Vec::new();
        let mut i: usize = 0;
        while i < nfa_states.len()
            invariant
                i <= nfa_states@.len(),
                owned@ == nfa_states@.subrange(0, i as int),
            decreases nfa_states@.len() - i,
        {
            owned.push(nfa_states[i]);
            i = i + 1;
        }
        proof {
            assert(nfa_states@.subrange(0, i as int) =~= nfa_states@);
        }
        let state = State { id, is_match, nfa_states: owned };
        self.states.push(state);
        proof {
            assert(self.states@.drop_last() =~= old(self).states@);
        }
        Ok(id)
    }

    pub fn state(&self, id: StateID) -> (r: Option<&State>)
        ensures
            id < self.spec_states().len() ==> r == Some(&self.spec_states()[id as int]),
            id >= self.spec_states().len() ==> r is None,
    {
        if id < self.states.len() {
            Some(&self.states[id])
        } else {
            None
        }
    }

    /// The number of states.
    pub fn states_len(&self) -> (r: usize)
        ensures
            r == self.spec_states().len(),
    {
        self.states.len()
    }

    pub fn start(&self) -> (r: Option<StateID>)
        ensures
            r == self.spec_start(),
    {
        self.start
    }

    /// The ids of the accepting states, in order.
    pub fn accepts(&self) -> (r: Vec<StateID>)
        ensures
            r@ == accepting_ids(self.spec_states()),
    {
        let mut ids: Vec<StateID> = Vec::new();
        let mut i: usize = 0;
        while i < self.states.len()
            invariant
                i <= self.states@.len(),
                ids@ == accepting_ids(self.states@.subrange(0, i as int)),
            decreases self.states@.len() - i,
        {
            proof {
                assert(self.states@.subrange(0, i + 1).drop_last() =~= self.states@.subrange(0, i as int));
            }
            if self.states[i].is_match {
                ids.push(self.states[i].id);
            }
            proof {
                assert(ids@ =~= accepting_ids(self.states@.subrange(0, i + 1)));
            }
            i = i + 1;
        }
        proof {
            assert(self.states@.subrange(0, i as int) =~= self.states@);
        }
        ids
    }

    /// The transitions out of `from`, one per character, the newest for each.
    pub fn transitions_from(&self, from: StateID) -> (r: Vec<(char, StateID)>)
        ensures
            forall|k: int| 0 <= k < r@.len() ==> self.spec_next(from as int, (#[trigger] r@[k]).0) == Some(r@[k].1),
            forall|c: char| #[trigger] self.spec_next(from as int, c) is Some ==> exists|k: int| 0 <= k < r@.len() && (#[trigger] r@[k]).0 == c,
            forall|k: int, l: int| 0 <= k < l < r@.len() ==> r@[k].0 != r@[l].0,
    {
        let mut out: Vec<(char, StateID)> = Vec::new();
        if from >= self.transitions.len() {
            return out;
        }
        let row = &self.transitions[from];
        let mut j: usize = row.len();
        while j > 0
            invariant
                j <= row@.len(),
                from < self.transitions@.len(),
                row@ == self.transitions@[from as int]@,
                forall|k: int| 0 <= k < out@.len() ==> self.spec_next(from as int, (#[trigger] out@[k]).0) == Some(out@[k].1),
                forall|k: int, l: int| 0 <= k < l < out@.len() ==> out@[k].0 != out@[l].0,
                forall|q: int| j <= q < row@.len() ==> exists|k: int| 0 <= k < out@.len() && (#[trigger] out@[k]).0 == (#[trigger] row@[q]).0,
            decreases j,
        {
            let entry = row[j - 1];
            let mut seen = false;
            let mut k: usize = 0;
            while k < out.len()
                invariant
                    k <= out@.len(),
                    seen == exists|q: int| 0 <= q < k && (#[trigger] out@[q]).0 == entry.0,
                decreases out@.len() - k,
            {
                if out[k].0 == entry.0 {
                    seen = true;
                }
                k = k + 1;
            }
            let ghost before = out@;
            if !seen {
                proof {
                    lemma_row_lookup_suffix(row@, j as int, entry.0);
                    assert(row@.subrange(0, j as int).drop_last() =~= row@.subrange(0, j - 1));
                    assert(row@.subrange(0, j as int).last() == entry);
                }
                out.push(entry);
                proof {
                    assert forall|q: int| j - 1 <= q < row@.len() implies exists|k: int| 0 <= k < out@.len() && (#[trigger] out@[k]).0 == (#[trigger] row@[q]).0 by {
                        if q == j - 1 {
                            assert(out@[out@.len() - 1].0 == row@[q].0);
                        } else {
                            let k = choose|k: int| 0 <= k < before.len() && (#[trigger] before[k]).0 == row@[q].0;
                            assert(out@[k] == before[k]);
                        }
                    }
                }
            }
            j = j - 1;
        }
        proof {
            assert forall|c: char| #[trigger] self.spec_next(from as int, c) is Some implies exists|k: int| 0 <= k < out@.len() && (#[trigger] out@[k]).0 == c by {
                lemma_row_lookup_found(row@, c);
            }
        }
        out
    }

    /// The transition from `current` on `input`, if any.
    pub fn next(&self, current: StateID, input: char) -> (r: Option<StateID>)
        ensures
            r == self.spec_next(current as int, input),
    {
        if current >= self.transitions.len() {
            return None;
        }
        let row = &self.transitions[current];
        proof {
            assert(row@.subrange(0, row@.len() as int) =~= row@);
        }
        let mut j: usize = row.len();
        while j > 0
            invariant
                j <= row@.len(),
                current < self.transitions@.len(),
                row@ == self.transitions@[current as int]@,
                row_lookup(row@, input) == row_lookup(row@.subrange(0, j as int), input),
            decreases j,
        {
            let entry = row[j - 1];
            proof {
                assert(row@.subrange(0, j as int).drop_last() =~= row@.subrange(0, j - 1));
                assert(row@.subrange(0, j as int).last() == entry);
            }
            if entry.0 == input {
                return Some(entry.1);
            }
            j = j - 1;
        }
        None
    }
}

} // verus!
