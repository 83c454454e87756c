use vstd::prelude::*;

pub mod paths;
pub mod thompson;

use crate::ast::{
    count_list, in_lang, lemma_at_least_lang, lemma_concat_single, lemma_optional_lang,
    matches_concat, matches_count, node_count, well_formed, Ast, Repetition,
};
use crate::error::{Error, ErrorKind};
use crate::nfa::paths::{accepts, inside, targets_valid};
use crate::nfa::thompson::{
    alternation_layout, chain_layout, concat_lang, is_eps_to, lemma_chain_extend, optional_layout, star_layout, lemma_alternate, lemma_concat_step, lemma_fragment_lang,
    lemma_fragment_transfer, lemma_literal, lemma_optional, lemma_star, lemma_whole, loop_layout,
    sub_automaton,
};

verus! {

/// Index of a state in the automaton's arena.
pub type StateID = usize;

/// A state of the automaton: its outgoing transitions, in the order they were
/// added, and whether it accepts.
pub enum State {
    Accept(Vec<Transition>),
    Transition(Vec<Transition>),
}

impl State {
    /// The outgoing transitions.
    pub open spec fn transitions(&self) -> Seq<Transition> {
        match self {
            State::Accept(ts) => ts@,
            State::Transition(ts) => ts@,
        }
    }

    /// The state accepts the input read so far.
    pub open spec fn is_accept(&self) -> bool {
        self is Accept
    }

    pub fn as_transitions_mut(&mut self) -> (r: &mut Vec<Transition>)
        ensures
            r@ == old(self).transitions(),
            final(self).transitions() == final(r)@,
            final(self).is_accept() == old(self).is_accept(),
    {
        match self {
            State::Accept(transitions) => transitions,
            State::Transition(transitions) => transitions,
        }
    }

    pub fn as_transitions(&self) -> (r: &Vec<Transition>)
        ensures
            r@ == self.transitions(),
    {
        match self {
            State::Accept(transitions) => transitions,
            State::Transition(transitions) => transitions,
        }
    }

    /// Turns the state into an accepting one, keeping its transitions.
    pub fn make_accept(&mut self)
        ensures
            final(self).is_accept(),
            final(self).transitions() == old(self).transitions(),
    {
        if let State::Transition(transitions) = self {
            let mut moved: Vec<Transition> = Vec::new();
            std::mem::swap(transitions, &mut moved);
            *self = State::Accept(moved);
        }
    }
}

/// A move to state `to_id`, reading one character or none.
#[derive(Clone, Copy, Debug, PartialEq, Eq, Hash)]
pub struct Transition {
    pub to_id: StateID,
    pub kind: TransitionKind,
}

impl Transition {
    pub fn to_id(&self) -> (r: StateID)
        ensures
            r == self.to_id,
    {
        self.to_id
    }

    pub fn kind(&self) -> (r: &TransitionKind)
        ensures
            *r == self.kind,
    {
        &self.kind
    }
}

/// The label of a transition.
#[derive(Clone, Copy, Debug, PartialEq, Eq, Hash)]
pub enum TransitionKind {
    /// Reads this character.
    Literal(char),
    /// Reads nothing.
    Epsilon,
}

/// A sub-automaton under construction: its single entry and single exit.
#[derive(Clone, Copy)]
pub struct NFAFragment {
    start: StateID,
    end: StateID,
}

/// A nondeterministic automaton: an arena of states addressed by index, with
/// a designated start state.
#[allow(clippy::upper_case_acronyms)]
pub struct NFA {
    start: StateID,
    end: StateID,
    states: Vec<State>,
}

impl View for NFA {
    type V = Seq<State>;

    closed spec fn view(&self) -> Seq<State> {
        self.states@
    }
}

impl NFA {
    /// The start state.
    pub closed spec fn start_id(&self) -> int {
        self.start as int
    }

    /// The exit of the automaton built from a tree.
    pub closed spec fn end_id(&self) -> int {
        self.end as int
    }

    /// Every transition and the start state refer to states that exist.
    pub open spec fn well_formed(&self) -> bool {
        targets_valid(self@) && 0 <= self.start_id() < self@.len()
    }

    /// `self` is `old` with states added after the existing ones, none of
    /// them accepting; the existing states and the start and exit are kept.
    closed spec fn extends(&self, old: &NFA) -> bool {
        &&& self.states@.len() >= old.states@.len()
        &&& forall|w: int| 0 <= w < old.states@.len() ==> #[trigger] self.states@[w] == old.states@[w]
        &&& forall|w: int|
            old.states@.len() <= w < self.states@.len() ==> !(#[trigger] self.states@[w]).is_accept()
        &&& self.start == old.start
        &&& self.end == old.end
    }

    pub fn new() -> (r: Self)
        ensures
            r@.len() == 0,
            r.start_id() == 0,
            r.end_id() == 0,
    {
        Self { start: 0, end: 0, states: Vec::new() }
    }

    /// Builds the automaton of `ast` into this empty arena: the tree's
    /// sub-automaton becomes the whole automaton, its exit the only
    /// accepting state.
    pub fn build(&mut self, ast: &Ast) -> (r: Result<(), Error>)
        requires
            old(self)@.len() == 0,
        ensures
            r is Ok ==> final(self)@.len() == 2 * node_count(*ast),
            r is Err ==> forall|u: int| 0 <= u < final(self)@.len() ==> !(#[trigger] final(self)@[u]).is_accept(),
            r is Ok <==> well_formed(*ast),
            r matches Err(e) ==> e@ is SyntaxError,
            r is Ok ==> {
                &&& final(self).well_formed()
                &&& 0 <= final(self).end_id() < final(self)@.len()
                &&& forall|u: int|
                    0 <= u < final(self)@.len() ==> (#[trigger] final(self)@[u].is_accept() <==> u
                        == final(self).end_id())
                &&& forall|s: Seq<char>|
                    in_lang(*ast, s) <==> #[trigger] accepts(final(self)@, final(self).start_id(), s)
            },
    {
        let states = self.construct(ast)?;
        let ghost g = self.states@;
        self.make_accept(states.end)?;
        self.set_start_end(states.start, states.end);
        proof {
            lemma_fragment_transfer(
                g,
                self.states@,
                0,
                g.len() as int,
                states.start as int,
                states.end as int,
                |s: Seq<char>| in_lang(*ast, s),
            );
            lemma_whole(
                self.states@,
                states.start as int,
                states.end as int,
                |s: Seq<char>| in_lang(*ast, s),
            );
        }
        Ok(())
    }

    /// Appends `state` and returns its id.
    pub fn add_state(&mut self, state: State) -> (r: StateID)
        ensures
            final(self)@ == old(self)@.push(state),
            r == old(self)@.len(),
            final(self).start_id() == old(self).start_id(),
            final(self).end_id() == old(self).end_id(),
    {
        let id = self.states.len();
        self.states.push(state);
        id
    }

    /// Marks state `id` as accepting.
    pub fn make_accept(&mut self, id: StateID) -> (r: Result<(), Error>)
        ensures
            id < old(self)@.len() ==> {
                &&& r is Ok
                &&& final(self)@.len() == old(self)@.len()
                &&& final(self)@[id as int].is_accept()
                &&& final(self)@[id as int].transitions() == old(self)@[id as int].transitions()
                &&& forall|w: int|
                    0 <= w < old(self)@.len() && w != id ==> #[trigger] final(self)@[w]
                        == old(self)@[w]
            },
            id >= old(self)@.len() ==> final(self)@ == old(self)@ && (r matches Err(e) && e@
                == (ErrorKind::StateIDOverflow { max: old(self)@.len() as usize })),
            final(self).start_id() == old(self).start_id(),
            final(self).end_id() == old(self).end_id(),
    {
        if id < self.states.len() {
            self.states[id].make_accept();
            Ok(())
        } else {
            Err(Error::state_id_overflow(self.states.len()))
        }
    }

    pub fn start(&self) -> (r: StateID)
        ensures
            r == self.start_id(),
    {
        self.start
    }

    pub fn state(&self, id: StateID) -> (r: Option<&State>)
        ensures
            id < self@.len() ==> r == Some(&self@[id as int]),
            id >= self@.len() ==> r is None,
    {
        if id < self.states.len() {
            Some(&self.states[id])
        } else {
            None
        }
    }

    pub fn states_count(&self) -> (r: usize)
        ensures
            r == self@.len(),
    {
        self.states.len()
    }

    pub fn is_accept(&self, id: StateID) -> (r: bool)
        ensures
            r == (id < self@.len() && self@[id as int].is_accept()),
    {
        if id < self.states.len() {
            matches!(self.states[id], State::Accept(_))
        } else {
            false
        }
    }
}

impl NFA {
    /// Appends a transition to the list of state `from_id`.
    fn add_transition(&mut self, from_id: StateID, to_id: StateID, kind: TransitionKind) -> (r: Result<(), Error>)
        ensures
            from_id < old(self)@.len() ==> {
                &&& r is Ok
                &&& final(self).states@.len() == old(self).states@.len()
                &&& final(self).states@[from_id as int].transitions() == old(self).states@[from_id as int].transitions().push(Transition { to_id, kind })
                &&& final(self).states@[from_id as int].is_accept() == old(self).states@[from_id as int].is_accept()
                &&& forall|w: int|
                    0 <= w < old(self).states@.len() && w != from_id ==> #[trigger] final(self).states@[w]
                        == old(self).states@[w]
            },
            from_id >= old(self)@.len() ==> final(self).states@ == old(self).states@ && (r matches Err(e)
                && e@ == (ErrorKind::StateIDOverflow { max: old(self)@.len() as usize })),
            to_id < old(self)@.len() && targets_valid(old(self)@) ==> targets_valid(final(self)@),
            final(self).start == old(self).start,
            final(self).end == old(self).end,
    {
        if from_id < self.states.len() {
            let ghost g = self.states@;
            self.states[from_id].as_transitions_mut().push(Transition { to_id, kind });
            proof {
                if to_id < g.len() && targets_valid(g) {
                    assert forall|w: int, i: int|
                        0 <= w < self.states@.len() && 0 <= i < self.states@[w].transitions().len()
                            implies (#[trigger] self.states@[w].transitions()[i]).to_id
                        < self.states@.len() by {
                        if w != from_id && i < g[w].transitions().len() {
                            assert(g[w].transitions()[i] == self.states@[w].transitions()[i]);
                        }
                        if w == from_id && i < g[w].transitions().len() {
                            assert(g[w].transitions()[i] == self.states@[w].transitions()[i]);
                        }
                    }
                }
            }
            Ok(())
        } else {
            Err(Error::state_id_overflow(self.states.len()))
        }
    }

    /// Appends two fresh states without transitions, the entry and the exit
    /// of a new sub-automaton.
    fn new_fragment(&mut self) -> (r: NFAFragment)
        ensures
            final(self).extends(old(self)),
            final(self).states@.len() == old(self).states@.len() + 2,
            r.start == old(self).states@.len(),
            r.end == old(self).states@.len() + 1,
            final(self).states@[r.start as int].transitions().len() == 0,
            final(self).states@[r.end as int].transitions().len() == 0,
    {
        let start = self.add_state(State::Transition(Vec::new()));
        let end = self.add_state(State::Transition(Vec::new()));
        NFAFragment { start, end }
    }

    /// `f` is a sub-automaton of `g` that spans the states from `lo` on, reads
    /// the language `l`, and has no transition out of its exit yet.
    closed spec fn built(g: Seq<State>, lo: int, f: NFAFragment, l: spec_fn(Seq<char>) -> bool) -> bool {
        &&& sub_automaton(g, lo, g.len() as int, f.start as int, f.end as int, l)
        &&& g[f.end as int].transitions().len() == 0
        &&& f.start == lo
        &&& f.start < f.end
    }

    /// Builds the sub-automaton of `ast` from fresh states.
    fn construct(&mut self, ast: &Ast) -> (r: Result<NFAFragment, Error>)
        requires
            targets_valid(old(self)@),
        ensures
            r is Ok ==> final(self)@.len() == old(self)@.len() + 2 * node_count(*ast),
            final(self).extends(old(self)),
            targets_valid(final(self)@),
            r is Ok <==> well_formed(*ast),
            r matches Err(e) ==> e@ is SyntaxError,
            r matches Ok(f) ==> Self::built(
                final(self)@,
                old(self)@.len() as int,
                f,
                |s: Seq<char>| in_lang(*ast, s),
            ),
        decreases ast, 0nat,
    {
        let ghost lo = self.states@.len() as int;
        let ghost l = |s: Seq<char>| in_lang(*ast, s);
        let r = match ast {
            Ast::Literal(c) => {
                let r = self.construct_literal(*c);
                proof {
                    if let Ok(f) = r {
                        lemma_fragment_lang(
                            self.states@,
                            lo,
                            self.states@.len() as int,
                            f.start as int,
                            f.end as int,
                            |s: Seq<char>| s == seq![*c],
                            l,
                        );
                    }
                }
                r
            },
            Ast::Concat(concats) => {
                let r = self.construct_concat(concats);
                proof {
                    if let Ok(f) = r {
                        lemma_fragment_lang(
                            self.states@,
                            lo,
                            self.states@.len() as int,
                            f.start as int,
                            f.end as int,
                            |s: Seq<char>| matches_concat(concats@, s),
                            l,
                        );
                    }
                }
                r
            },
            Ast::Alternate(alternates) => {
                let r = self.construct_alternate(alternates);
                proof {
                    if let Ok(f) = r {
                        lemma_fragment_lang(
                            self.states@,
                            lo,
                            self.states@.len() as int,
                            f.start as int,
                            f.end as int,
                            |s: Seq<char>| exists|i: int| 0 <= i < alternates@.len() && in_lang(#[trigger] alternates@[i], s),
                            l,
                        );
                    }
                }
                r
            },
            Ast::Repetition(repetition) => {
                let r = self.construct_repetition(repetition);
                proof {
                    if let Ok(f) = r {
                        lemma_fragment_lang(
                            self.states@,
                            lo,
                            self.states@.len() as int,
                            f.start as int,
                            f.end as int,
                            |s: Seq<char>| in_lang(Ast::Repetition(*repetition), s),
                            l,
                        );
                    }
                }
                r
            },
        };
        r
    }

    /// One transition on `c` from a fresh entry to a fresh exit.
    fn construct_literal(&mut self, c: char) -> (r: Result<NFAFragment, Error>)
        requires
            targets_valid(old(self)@),
        ensures
            final(self)@.len() == old(self)@.len() + 2,
            final(self).extends(old(self)),
            targets_valid(final(self)@),
            r matches Ok(f) && Self::built(
                final(self)@,
                old(self)@.len() as int,
                f,
                |s: Seq<char>| s == seq![c],
            ) && f.end == f.start + 1 && final(self)@[f.start as int].transitions() == seq![
                Transition { to_id: f.end, kind: TransitionKind::Literal(c) },
            ],
    {
        let fragment = self.new_fragment();
        self.add_transition(fragment.start, fragment.end, TransitionKind::Literal(c))?;
        proof {
            lemma_literal(self.states@, fragment.start as int, c);
            assert(self.states@[fragment.start as int].transitions() =~= seq![
                Transition { to_id: fragment.end, kind: TransitionKind::Literal(c) },
            ]);
        }
        Ok(fragment)
    }

    /// The elements' sub-automata, each exit joined to the next entry.
    fn construct_concat(&mut self, concats: &Vec<Ast>) -> (r: Result<NFAFragment, Error>)
        requires
            targets_valid(old(self)@),
        ensures
            r is Ok ==> final(self)@.len() == old(self)@.len() + 2 * count_list(concats@),
            final(self).extends(old(self)),
            targets_valid(final(self)@),
            r is Ok <==> (concats@.len() > 0 && forall|i: int|
                0 <= i < concats@.len() ==> well_formed(#[trigger] concats@[i])),
            r matches Err(e) ==> e@ is SyntaxError,
            r matches Ok(f) ==> Self::built(
                final(self)@,
                old(self)@.len() as int,
                f,
                |s: Seq<char>| matches_concat(concats@, s),
            ),
            r matches Ok(f) ==> exists|kids: Seq<(int, int, int, int)>|
                #[trigger] chain_layout(final(self)@, kids, concats@, f.start as int, f.end as int),
        decreases concats@, 0nat,
    {
        if concats.len() == 0 {
            return Err(Error::syntax("Empty concatenation"));
        }
        let ghost lo = self.states@.len() as int;
        let ghost list = concats@;
        let mut current_fragment = self.construct(&concats[0])?;
        proof {
            assert forall|s: Seq<char>| #[trigger] in_lang(list[0], s) == matches_concat(list.subrange(0, 1), s) by {
                lemma_concat_single(list.subrange(0, 1), s);
            }
            assert(list.subrange(0, 1).drop_last() =~= Seq::<Ast>::empty());
            assert(list.subrange(0, 1).last() == list[0]);
            assert(count_list(Seq::<Ast>::empty()) == 0);
            assert(count_list(list.subrange(0, 1)) == node_count(list[0]));
            lemma_fragment_lang(
                self.states@,
                lo,
                self.states@.len() as int,
                current_fragment.start as int,
                current_fragment.end as int,
                |s: Seq<char>| in_lang(list[0], s),
                |s: Seq<char>| matches_concat(list.subrange(0, 1), s),
            );
        }
        let ghost mut kids: Seq<(int, int, int, int)> = seq![
            (lo, self.states@.len() as int, current_fragment.start as int, current_fragment.end as int),
        ];
        proof {
            let g = self.states@;
            lemma_fragment_lang(
                g,
                lo,
                g.len() as int,
                current_fragment.start as int,
                current_fragment.end as int,
                |s: Seq<char>| in_lang(concats@[0], s),
                |s: Seq<char>| in_lang(list.subrange(0, 1)[0], s),
            );
            assert(kids[0] == (lo, g.len() as int, current_fragment.start as int, current_fragment.end as int));
            reveal(chain_layout);
            assert(chain_layout(g, kids, list.subrange(0, 1), current_fragment.start as int, current_fragment.end as int));
        }
        let mut i: usize = 1;
        while i < concats.len()
            invariant
                list == concats@,
                1 <= i <= concats@.len(),
                self.extends(old(self)),
                targets_valid(self@),
                lo == old(self)@.len(),
                forall|j: int| 0 <= j < i ==> well_formed(#[trigger] concats@[j]),
                Self::built(self@, lo, current_fragment, |s: Seq<char>| matches_concat(list.subrange(0, i as int), s)),
                self@.len() == lo + 2 * count_list(list.subrange(0, i as int)),
                chain_layout(self@, kids, list.subrange(0, i as int), current_fragment.start as int, current_fragment.end as int),
                forall|k: int| 0 <= k < kids.len() - 1 ==> (#[trigger] kids[k]).1 <= kids.last().0,
                kids.last().1 <= self@.len(),
            decreases concats@.len() - i,
        {
            let ghost g0 = self.states@;
            let ghost mid = g0.len() as int;
            let next_fragment = self.construct(&concats[i])?;
            let ghost g1 = self.states@;
            self.add_transition(current_fragment.end, next_fragment.start, TransitionKind::Epsilon)?;
            proof {
                let g2 = self.states@;
                let la = |s: Seq<char>| matches_concat(list.subrange(0, i as int), s);
                let lb = |s: Seq<char>| in_lang(list[i as int], s);
                lemma_fragment_transfer(
                    g0,
                    g2,
                    lo,
                    mid,
                    current_fragment.start as int,
                    current_fragment.end as int,
                    la,
                );
                lemma_fragment_transfer(
                    g1,
                    g2,
                    mid,
                    g2.len() as int,
                    next_fragment.start as int,
                    next_fragment.end as int,
                    lb,
                );
                lemma_concat_step(
                    g2,
                    lo,
                    mid,
                    current_fragment.start as int,
                    current_fragment.end as int,
                    la,
                    g2.len() as int,
                    next_fragment.start as int,
                    next_fragment.end as int,
                    lb,
                );
                let longer = list.subrange(0, i + 1);
                assert(longer.drop_last() =~= list.subrange(0, i as int));
                assert(longer.last() == list[i as int]);
                lemma_fragment_lang(
                    g2,
                    lo,
                    g2.len() as int,
                    current_fragment.start as int,
                    next_fragment.end as int,
                    concat_lang(la, lb),
                    |s: Seq<char>| matches_concat(longer, s),
                );
                let kids2 = kids.push((mid, g2.len() as int, next_fragment.start as int, next_fragment.end as int));
                assert forall|w: int| 0 <= w < mid && w != current_fragment.end implies #[trigger] g2[w] == g0[w] by {
                    assert(g1[w] == g0[w]);
                }
                assert(g2[current_fragment.end as int].transitions() =~= seq![
                    Transition { to_id: next_fragment.start, kind: TransitionKind::Epsilon },
                ]);
                lemma_chain_extend(
                    g0,
                    g2,
                    kids,
                    list.subrange(0, i as int),
                    current_fragment.start as int,
                    current_fragment.end as int,
                    g2.len() as int,
                    next_fragment.start as int,
                    next_fragment.end as int,
                    list[i as int],
                );
                assert(list.subrange(0, i as int).push(list[i as int]) =~= list.subrange(0, i + 1));
                kids = kids2;
            }
            current_fragment.end = next_fragment.end;
            i = i + 1;
        }
        proof {
            assert(list.subrange(0, i as int) =~= list);
            assert(chain_layout(self@, kids, list, current_fragment.start as int, current_fragment.end as int));
        }
        Ok(current_fragment)
    }

    /// A fresh entry and exit around the sub-automata of the branches.
    fn construct_alternate(&mut self, alternates: &Vec<Ast>) -> (r: Result<NFAFragment, Error>)
        requires
            targets_valid(old(self)@),
        ensures
            r is Ok ==> final(self)@.len() == old(self)@.len() + 2 + 2 * count_list(alternates@),
            final(self).extends(old(self)),
            targets_valid(final(self)@),
            r is Ok <==> (alternates@.len() > 0 && forall|i: int|
                0 <= i < alternates@.len() ==> well_formed(#[trigger] alternates@[i])),
            r matches Err(e) ==> e@ is SyntaxError,
            r matches Ok(f) ==> Self::built(
                final(self)@,
                old(self)@.len() as int,
                f,
                |s: Seq<char>| exists|i: int| 0 <= i < alternates@.len() && in_lang(#[trigger] alternates@[i], s),
            ),
            r matches Ok(f) ==> f.end == f.start + 1 && exists|kids: Seq<(int, int, int, int)>|
                #[trigger] alternation_layout(final(self)@, f.start as int, final(self)@.len() as int, kids, alternates@),
        decreases alternates@, 0nat,
    {
        if alternates.len() == 0 {
            return Err(Error::syntax("Empty alternation"));
        }
        let ghost lo = self.states@.len() as int;
        let ghost list = alternates@;
        let fragment = self.new_fragment();
        let ghost mut kids: Seq<(int, int, int, int)> = Seq::empty();
        proof {
            assert(list.subrange(0, 0) =~= Seq::<Ast>::empty());
        }
        let mut i: usize = 0;
        while i < alternates.len()
            invariant
                list == alternates@,
                0 <= i <= list.len(),
                self.extends(old(self)),
                targets_valid(self@),
                lo == old(self)@.len(),
                fragment.start == lo,
                fragment.end == lo + 1,
                forall|j: int| 0 <= j < i ==> well_formed(#[trigger] list[j]),
                alternation_layout(self@, lo, self@.len() as int, kids, list.subrange(0, i as int)),
                self@.len() == lo + 2 + 2 * count_list(list.subrange(0, i as int)),
            decreases list.len() - i,
        {
            let ghost g0 = self.states@;
            let ghost mid = g0.len() as int;
            let alt_fragment = self.construct(&alternates[i])?;
            let ghost g1 = self.states@;
            self.add_transition(fragment.start, alt_fragment.start, TransitionKind::Epsilon)?;
            self.add_transition(alt_fragment.end, fragment.end, TransitionKind::Epsilon)?;
            proof {
                let g3 = self.states@;
                let hi = g3.len() as int;
                let newkid = (mid, hi, alt_fragment.start as int, alt_fragment.end as int);
                let kids2 = kids.push(newkid);
                let old_sub = list.subrange(0, i as int);
                let sub = list.subrange(0, i + 1);
                assert(sub.drop_last() =~= old_sub);
                assert(sub.last() == list[i as int]);
                assert(g3[lo].transitions() =~= g0[lo].transitions().push(Transition { to_id: alt_fragment.start, kind: TransitionKind::Epsilon }));
                assert forall|w: int, j: int|
                    inside(lo, hi, lo + 1, w) && 0 <= j < g3[w].transitions().len() implies lo <= (
                    #[trigger] g3[w].transitions()[j]).to_id < hi by {
                    if w == lo {
                        if j < g0[lo].transitions().len() {
                            assert(g3[w].transitions()[j] == g0[w].transitions()[j]);
                        }
                    } else if w < mid {
                        assert(g3[w] == g0[w]);
                    } else if w != alt_fragment.end {
                        assert(inside(mid, hi, alt_fragment.end as int, w));
                        assert(g3[w] == g1[w]);
                    }
                }
                lemma_fragment_transfer(
                    g1,
                    g3,
                    mid,
                    hi,
                    alt_fragment.start as int,
                    alt_fragment.end as int,
                    |s: Seq<char>| in_lang(list[i as int], s),
                );
                assert forall|j: int| 0 <= j < kids2.len() implies {
                    &&& is_eps_to(#[trigger] g3[lo].transitions()[j], kids2[j].2)
                    &&& sub_automaton(
                        g3,
                        kids2[j].0,
                        kids2[j].1,
                        kids2[j].2,
                        kids2[j].3,
                        |s: Seq<char>| in_lang(sub[j], s),
                    )
                    &&& lo + 2 <= kids2[j].0
                    &&& kids2[j].1 <= hi
                    &&& g3[kids2[j].3].transitions().len() == 1
                    &&& is_eps_to(g3[kids2[j].3].transitions()[0], lo + 1)
                } by {
                    if j < kids.len() {
                        assert(is_eps_to(g0[lo].transitions()[j], kids[j].2));
                        assert(sub[j] == old_sub[j]);
                        let kid = kids[j];
                        assert(sub_automaton(g0, kid.0, kid.1, kid.2, kid.3, |s: Seq<char>| in_lang(old_sub[j], s)));
                        lemma_fragment_transfer(
                            g0,
                            g3,
                            kid.0,
                            kid.1,
                            kid.2,
                            kid.3,
                            |s: Seq<char>| in_lang(old_sub[j], s),
                        );
                        lemma_fragment_lang(
                            g3,
                            kid.0,
                            kid.1,
                            kid.2,
                            kid.3,
                            |s: Seq<char>| in_lang(old_sub[j], s),
                            |s: Seq<char>| in_lang(sub[j], s),
                        );
                        assert(g3[kid.3] == g0[kid.3]);
                    } else {
                        assert(sub[j] == list[i as int]);
                        lemma_fragment_lang(
                            g3,
                            mid,
                            hi,
                            alt_fragment.start as int,
                            alt_fragment.end as int,
                            |s: Seq<char>| in_lang(list[i as int], s),
                            |s: Seq<char>| in_lang(sub[j], s),
                        );
                    }
                }
                kids = kids2;
            }
            i = i + 1;
        }
        proof {
            let g = self.states@;
            lemma_alternate(g, lo, g.len() as int, kids, list.subrange(0, i as int));
            assert(list.subrange(0, i as int) =~= list);
            assert(alternation_layout(g, lo, g.len() as int, kids, list));
        }
        Ok(fragment)
    }

    /// `?`, `*` and `+`; any other bounds are refused.
    fn construct_repetition(&mut self, repetition: &Repetition) -> (r: Result<NFAFragment, Error>)
        requires
            targets_valid(old(self)@),
        ensures
            r is Ok ==> final(self)@.len() == old(self)@.len() + 2 * node_count(Ast::Repetition(*repetition)),
            final(self).extends(old(self)),
            targets_valid(final(self)@),
            r is Ok <==> well_formed(Ast::Repetition(*repetition)),
            r matches Err(e) ==> e@ is SyntaxError,
            r matches Ok(f) ==> Self::built(
                final(self)@,
                old(self)@.len() as int,
                f,
                |s: Seq<char>| in_lang(Ast::Repetition(*repetition), s),
            ),
        decreases repetition, 0nat,
    {
        let ghost lo = self.states@.len() as int;
        let ghost inner = *repetition.ast;
        let ghost l = |s: Seq<char>| in_lang(Ast::Repetition(*repetition), s);
        match (repetition.min, repetition.max) {
            (0, Some(1)) => {
                let r = self.construct_zero_or_one(&repetition.ast);
                proof {
                    if let Ok(f) = r {
                        let l1 = |s: Seq<char>| exists|n: nat| n <= 1 && #[trigger] matches_count(inner, n, s);
                        assert forall|s: Seq<char>| #[trigger] l1(s) == l(s) by {
                            lemma_optional_lang(*repetition, s);
                        }
                        lemma_fragment_lang(
                            self.states@,
                            lo,
                            self.states@.len() as int,
                            f.start as int,
                            f.end as int,
                            l1,
                            l,
                        );
                    }
                }
                r
            },
            (0, None) | (1, None) => {
                let n: usize = if repetition.min == 0 { 0 } else { 1 };
                let r = self.construct_at_least(&repetition.ast, n);
                proof {
                    if let Ok(f) = r {
                        let l1 = |s: Seq<char>| exists|m: nat| (n == 0 || m >= 1) && #[trigger] matches_count(inner, m, s);
                        assert forall|s: Seq<char>| #[trigger] l1(s) == l(s) by {
                            lemma_at_least_lang(*repetition, n as nat, s);
                        }
                        lemma_fragment_lang(
                            self.states@,
                            lo,
                            self.states@.len() as int,
                            f.start as int,
                            f.end as int,
                            l1,
                            l,
                        );
                    }
                }
                r
            },
            _ => Err(Error::syntax("Unsupported repetition bounds")),
        }
    }

    /// `?`: the inner sub-automaton, or nothing.
    fn construct_zero_or_one(&mut self, ast: &Ast) -> (r: Result<NFAFragment, Error>)
        requires
            targets_valid(old(self)@),
        ensures
            r is Ok ==> final(self)@.len() == old(self)@.len() + 2 + 2 * node_count(*ast),
            final(self).extends(old(self)),
            targets_valid(final(self)@),
            r is Ok <==> well_formed(*ast),
            r matches Err(e) ==> e@ is SyntaxError,
            r matches Ok(f) ==> Self::built(
                final(self)@,
                old(self)@.len() as int,
                f,
                |s: Seq<char>| exists|n: nat| n <= 1 && #[trigger] matches_count(*ast, n, s),
            ),
            r matches Ok(f) ==> f.end == f.start + 1 && exists|kid: (int, int, int, int)|
                #[trigger] optional_layout(final(self)@, f.start as int, final(self)@.len() as int, kid, *ast),
        decreases ast, 1nat,
    {
        let ghost lo = self.states@.len() as int;
        let fragment = self.new_fragment();
        let ghost g0 = self.states@;
        let ghost mid = g0.len() as int;
        let inner_fragment = self.construct(ast)?;
        let ghost g1 = self.states@;
        self.add_transition(fragment.start, inner_fragment.start, TransitionKind::Epsilon)?;
        self.add_transition(inner_fragment.end, fragment.end, TransitionKind::Epsilon)?;
        // the empty string: skip the inner part
        self.add_transition(fragment.start, fragment.end, TransitionKind::Epsilon)?;
        proof {
            let g3 = self.states@;
            let hi = g3.len() as int;
            let l = |s: Seq<char>| in_lang(*ast, s);
            lemma_fragment_transfer(
                g1,
                g3,
                mid,
                hi,
                inner_fragment.start as int,
                inner_fragment.end as int,
                l,
            );
            assert forall|w: int, j: int|
                inside(lo, hi, lo + 1, w) && 0 <= j < g3[w].transitions().len() implies lo <= (
                #[trigger] g3[w].transitions()[j]).to_id < hi by {
                if w >= mid && w != inner_fragment.end {
                    assert(inside(mid, hi, inner_fragment.end as int, w));
                    assert(g3[w] == g1[w]);
                }
            }
            assert(optional_layout(
                g3,
                lo,
                hi,
                (mid, hi, inner_fragment.start as int, inner_fragment.end as int),
                *ast,
            ));
            lemma_optional(
                g3,
                lo,
                hi,
                (mid, hi, inner_fragment.start as int, inner_fragment.end as int),
                *ast,
            );
        }
        Ok(fragment)
    }

    /// `*` when `n` is 0 and `+` when it is 1: the inner sub-automaton, with a
    /// loop from its exit back to its entry, and for `*` a way around it.
    fn construct_at_least(&mut self, ast: &Ast, n: usize) -> (r: Result<NFAFragment, Error>)
        requires
            targets_valid(old(self)@),
            n <= 1,
        ensures
            r is Ok ==> final(self)@.len() == old(self)@.len() + 2 + 2 * node_count(*ast),
            final(self).extends(old(self)),
            targets_valid(final(self)@),
            r is Ok <==> well_formed(*ast),
            r matches Err(e) ==> e@ is SyntaxError,
            r matches Ok(f) ==> Self::built(
                final(self)@,
                old(self)@.len() as int,
                f,
                |s: Seq<char>| exists|m: nat| (n == 0 || m >= 1) && #[trigger] matches_count(*ast, m, s),
            ),
            r matches Ok(f) ==> f.end == f.start + 1 && exists|kid: (int, int, int, int)|
                #[trigger] loop_layout(final(self)@, f.start as int, final(self)@.len() as int, kid, *ast)
                    && star_layout(final(self)@, f.start as int, final(self)@.len() as int, kid, *ast, n == 0),
        decreases ast, 1nat,
    {
        let ghost lo = self.states@.len() as int;
        let fragment = self.new_fragment();
        let ghost g0 = self.states@;
        let ghost mid = g0.len() as int;
        let inner_fragment = self.construct(ast)?;
        let ghost g1 = self.states@;
        self.add_transition(inner_fragment.end, inner_fragment.start, TransitionKind::Epsilon)?;
        self.add_transition(inner_fragment.end, fragment.end, TransitionKind::Epsilon)?;
        if n == 0 {
            // the empty string: skip the loop
            self.add_transition(fragment.start, fragment.end, TransitionKind::Epsilon)?;
        }
        self.add_transition(fragment.start, inner_fragment.start, TransitionKind::Epsilon)?;
        proof {
            let g3 = self.states@;
            let hi = g3.len() as int;
            let l = |s: Seq<char>| in_lang(*ast, s);
            lemma_fragment_transfer(
                g1,
                g3,
                mid,
                hi,
                inner_fragment.start as int,
                inner_fragment.end as int,
                l,
            );
            assert forall|w: int, j: int|
                inside(lo, hi, lo + 1, w) && 0 <= j < g3[w].transitions().len() implies lo <= (
                #[trigger] g3[w].transitions()[j]).to_id < hi by {
                if w >= mid && w != inner_fragment.end {
                    assert(inside(mid, hi, inner_fragment.end as int, w));
                    assert(g3[w] == g1[w]);
                }
            }
            let kid = (mid, hi, inner_fragment.start as int, inner_fragment.end as int);
            assert(loop_layout(g3, lo, hi, kid, *ast));
            assert(star_layout(g3, lo, hi, kid, *ast, n == 0));
            lemma_star(g3, lo, hi, kid, *ast, n == 0);
            assert(exists|k: (int, int, int, int)|
                #[trigger] loop_layout(g3, lo, hi, k, *ast) && star_layout(g3, lo, hi, k, *ast, n == 0));
        }
        Ok(fragment)
    }

    /// Records the entry and the exit of the built automaton.
    fn set_start_end(&mut self, start: StateID, end: StateID)
        ensures
            final(self).states@ == old(self).states@,
            final(self).start == start,
            final(self).end == end,
    {
        self.start = start;
        self.end = end;
    }
}

} // verus!
