//! Whole-string regular-expression matching through automata: a pattern is
//! parsed into a tree, the tree becomes a nondeterministic automaton by
//! Thompson's construction, and the subset construction turns that into a
//! deterministic automaton that decides each string in one pass.
use vstd::prelude::*;

pub mod ast;
pub mod dfa;
pub mod error;
pub mod nfa;

use crate::ast::lexer::chars_of;
use crate::ast::parser::{alt_tree, lemma_alt_count, parses_to, Parser};
use vstd::arithmetic::power2::{lemma_pow2_strictly_increases, pow2};
use crate::ast::{in_lang, well_formed, Ast};
use crate::dfa::determinize::Determinizer;
use crate::error::Error;
use crate::nfa::NFA;

verus! {

/// A compiled pattern.
pub struct Regex {
    dfa: dfa::DFA,
    tree: Ghost<Ast>,
}

impl Regex {
    /// The tree the pattern was parsed into.
    pub closed spec fn tree(&self) -> Ast {
        self.tree@
    }

    /// The automaton accepts exactly the language of the tree.
    #[verifier::type_invariant]
    closed spec fn decides_tree(&self) -> bool {
        forall|s: Seq<char>| #[trigger] self.dfa.accepts_word(s) == in_lang(self.tree@, s)
    }

    /// Parses and compiles `pattern`. A pattern outside the grammar gives a
    /// parse error; any other compiles, with a parse tree of the whole
    /// pattern, unless its automaton needs more states than ids exist. The
    /// nondeterministic automaton has at most two states per character of
    /// the pattern and the deterministic one at most `2^n - 1` for `n` of
    /// those, so that never happens while `2^(2 * length)` fits in `usize`.
    /// Nothing partly built is ever returned.
    pub fn new(pattern: &str) -> (r: Result<Regex, Error>)
        ensures
            r matches Ok(re) ==> well_formed(re.tree()) && parses_to(pattern@, re.tree()),
            (r matches Err(e) && e@ is ParseError) <==> !exists|t: Ast| #[trigger] parses_to(pattern@, t),
            r matches Err(e) ==> e@ is ParseError || e@ is StateIDOverflow,
            (exists|t: Ast| #[trigger] parses_to(pattern@, t)) && pow2((2 * pattern@.len()) as nat)
                <= usize::MAX ==> r is Ok,
    {
        let mut parser = Parser::new(pattern);
        let ast = match parser.parse() {
            Ok(ast) => ast,
            Err(e) => {
                proof {
                    assert forall|t: Ast| !#[trigger] parses_to(pattern@, t) by {
                        assert(!alt_tree(t, pattern@, 0, pattern@.len() as int));
                    }
                }
                return Err(e);
            },
        };
        proof {
            assert(parses_to(pattern@, ast));
            lemma_alt_count(ast, pattern@, 0, pattern@.len() as int);
        }
        let mut nfa = NFA::new();
        nfa.build(&ast)?;
        proof {
            let n = nfa@.len();
            let bound = (2 * pattern@.len()) as nat;
            if n < bound {
                lemma_pow2_strictly_increases(n, bound);
            }
        }
        let mut determinizer = Determinizer::new(&nfa);
        determinizer.build()?;
        Ok(Regex { dfa: determinizer.dfa, tree: Ghost(ast) })
    }

    /// Whether all of `text` is in the language of the pattern.
    pub fn is_match(&self, text: &str) -> (r: bool)
        ensures
            r == in_lang(self.tree(), text@),
    {
        proof {
            use_type_invariant(self);
            assert(self.dfa.accepts_word(text@) == in_lang(self.tree@, text@));
            assert(text@.subrange(0, text@.len() as int) =~= text@);
        }
        let chars = chars_of(text);
        let mut current_state = match self.dfa.start() {
            Some(state) => state,
            None => return false,
        };
        let mut i: usize = 0;
        while i < chars.len()
            invariant
                i <= chars@.len(),
                chars@ == text@,
                self.dfa.accepts_word(text@) == in_lang(self.tree@, text@),
                self.dfa.spec_start() matches Some(st) && self.dfa.run(st as int, text@) == self.dfa.run(
                    current_state as int,
                    text@.subrange(i as int, text@.len() as int),
                ),
            decreases chars@.len() - i,
        {
            let ghost rest = text@.subrange(i as int, text@.len() as int);
            proof {
                assert(rest.drop_first() =~= text@.subrange(i + 1, text@.len() as int));
            }
            proof {
                assert(rest[0] == chars@[i as int]);
            }
            if let Some(state) = self.dfa.next(current_state, chars[i]) {
                current_state = state;
            } else {
                proof {
                    assert(self.dfa.run(current_state as int, rest) is None);
                }
                return false;
            }
            i = i + 1;
        }
        proof {
            assert(text@.subrange(i as int, text@.len() as int) =~= Seq::<char>::empty());
        }
        match self.dfa.state(current_state) {
            Some(state) => state.is_match,
            None => false,
        }
    }
}

} // verus!
