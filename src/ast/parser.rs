use vstd::prelude::*;

use crate::ast::lexer::{token_at, token_of, Lexer, Token};
use crate::ast::{count_list, is_operator, node_count, well_formed, Ast, Repetition};
use crate::error::Error;

verus! {

/// `c` is a quantifier and `(min, max)` its bounds: `*` is (0, unbounded),
/// `+` is (1, unbounded), `?` is (0, 1).
pub open spec fn quantifier_bounds(c: char, min: u32, max: Option<u32>) -> bool {
    (c == '*' && min == 0 && max is None) || (c == '+' && min == 1 && max is None) || (c == '?'
        && min == 0 && max == Some(1u32))
}

/// `i < m < j`.
pub open spec fn strictly_between(i: int, m: int, j: int) -> bool {
    i < m < j
}

/// `r` is a tree of `s[i..j]` read by the rule
/// `alternate := concat ('|' concat)*`.
pub open spec fn alt_tree(r: Ast, s: Seq<char>, i: int, j: int) -> bool
    decreases j - i, 5nat, 0nat,
{
    if i < j {
        (r matches Ast::Alternate(v) && v@.len() >= 2 && alt_list(v@, s, i, j)) || concat_tree(
            r,
            s,
            i,
            j,
        )
    } else {
        false
    }
}

/// The trees of `list` are the `concat`s of `s[i..j]`, separated by `|`.
pub open spec fn alt_list(list: Seq<Ast>, s: Seq<char>, i: int, j: int) -> bool
    decreases j - i, 4nat, list.len(),
{
    if i < j && list.len() == 1 {
        concat_tree(list[0], s, i, j)
    } else if i < j && list.len() >= 2 {
        exists|m: int|
            i < m < j - 1 && #[trigger] s[m] == '|' && alt_list(list.drop_last(), s, i, m)
                && concat_tree(list.last(), s, m + 1, j)
    } else {
        false
    }
}

/// `r` is a tree of `s[i..j]` read by the rule `concat := quantified+`.
pub open spec fn concat_tree(r: Ast, s: Seq<char>, i: int, j: int) -> bool
    decreases j - i, 3nat, 0nat,
{
    if i < j {
        (r matches Ast::Concat(v) && v@.len() >= 2 && concat_list(v@, s, i, j)) || quant_tree(
            r,
            s,
            i,
            j,
        )
    } else {
        false
    }
}

/// The trees of `list` are consecutive `quantified`s that make up `s[i..j]`.
pub open spec fn concat_list(list: Seq<Ast>, s: Seq<char>, i: int, j: int) -> bool
    decreases j - i, 2nat, list.len(),
{
    if i < j && list.len() == 1 {
        quant_tree(list[0], s, i, j)
    } else if i < j && list.len() >= 2 {
        exists|m: int|
            #[trigger] strictly_between(i, m, j) && concat_list(list.drop_last(), s, i, m)
                && quant_tree(list.last(), s, m, j)
    } else {
        false
    }
}

/// `r` is a tree of `s[i..j]` read by the rule
/// `quantified := (literal | group) ('*' | '+' | '?')?`.
pub open spec fn quant_tree(r: Ast, s: Seq<char>, i: int, j: int) -> bool
    decreases j - i, 1nat, 0nat,
{
    if i < j {
        atom_tree(r, s, i, j) || (i < j - 1 && (r matches Ast::Repetition(rep) && quantifier_bounds(
            s[j - 1],
            rep.min,
            rep.max,
        ) && atom_tree(*rep.ast, s, i, j - 1)))
    } else {
        false
    }
}

/// `r` is a tree of `s[i..j]` read as a literal character or as
/// `group := '(' alternate ')'`.
pub open spec fn atom_tree(r: Ast, s: Seq<char>, i: int, j: int) -> bool
    decreases j - i, 0nat, 0nat,
{
    if 0 <= i < j <= s.len() {
        (j == i + 1 && !is_operator(s[i]) && r == Ast::Literal(s[i])) || (i + 2 <= j && s[i] == '('
            && s[j - 1] == ')' && alt_tree(r, s, i + 1, j - 1))
    } else {
        false
    }
}

/// `r` is a parse tree of the whole pattern `s`.
pub open spec fn parses_to(s: Seq<char>, r: Ast) -> bool {
    alt_tree(r, s, 0, s.len() as int)
}

/// A tree of an alternation of `s[i..j]` has at most `j - i` literal,
/// alternation and repetition nodes: each stands on a character of its own.
pub proof fn lemma_alt_count(t: Ast, s: Seq<char>, i: int, j: int)
    requires
        alt_tree(t, s, i, j),
    ensures
        node_count(t) <= j - i,
    decreases j - i, 5nat, 0nat,
{
    if t is Alternate && t->Alternate_0@.len() >= 2 && alt_list(t->Alternate_0@, s, i, j) {
        lemma_alt_list_count(t->Alternate_0@, s, i, j);
    } else {
        lemma_concat_count(t, s, i, j);
    }
}

proof fn lemma_alt_list_count(list: Seq<Ast>, s: Seq<char>, i: int, j: int)
    requires
        alt_list(list, s, i, j),
    ensures
        count_list(list) + list.len() - 1 <= j - i,
    decreases j - i, 4nat, list.len(),
{
    if list.len() == 1 {
        lemma_concat_count(list[0], s, i, j);
        assert(list.drop_last() =~= Seq::<Ast>::empty());
        assert(count_list(Seq::<Ast>::empty()) == 0);
    } else {
        let m = choose|m: int|
            i < m < j - 1 && #[trigger] s[m] == '|' && alt_list(list.drop_last(), s, i, m)
                && concat_tree(list.last(), s, m + 1, j);
        lemma_alt_list_count(list.drop_last(), s, i, m);
        lemma_concat_count(list.last(), s, m + 1, j);
    }
}

proof fn lemma_concat_count(t: Ast, s: Seq<char>, i: int, j: int)
    requires
        concat_tree(t, s, i, j),
    ensures
        node_count(t) <= j - i,
    decreases j - i, 3nat, 0nat,
{
    if t is Concat && t->Concat_0@.len() >= 2 && concat_list(t->Concat_0@, s, i, j) {
        lemma_concat_list_count(t->Concat_0@, s, i, j);
    } else {
        lemma_quant_count(t, s, i, j);
    }
}

proof fn lemma_concat_list_count(list: Seq<Ast>, s: Seq<char>, i: int, j: int)
    requires
        concat_list(list, s, i, j),
    ensures
        count_list(list) <= j - i,
    decreases j - i, 2nat, list.len(),
{
    if list.len() == 1 {
        lemma_quant_count(list[0], s, i, j);
        assert(list.drop_last() =~= Seq::<Ast>::empty());
        assert(count_list(Seq::<Ast>::empty()) == 0);
    } else {
        let m = choose|m: int|
            #[trigger] strictly_between(i, m, j) && concat_list(list.drop_last(), s, i, m)
                && quant_tree(list.last(), s, m, j);
        lemma_concat_list_count(list.drop_last(), s, i, m);
        lemma_quant_count(list.last(), s, m, j);
    }
}

proof fn lemma_quant_count(t: Ast, s: Seq<char>, i: int, j: int)
    requires
        quant_tree(t, s, i, j),
    ensures
        node_count(t) <= j - i,
    decreases j - i, 1nat, 0nat,
{
    if atom_tree(t, s, i, j) {
        lemma_atom_count(t, s, i, j);
    } else {
        let rep = t->Repetition_0;
        lemma_atom_count(*rep.ast, s, i, j - 1);
    }
}

proof fn lemma_atom_count(t: Ast, s: Seq<char>, i: int, j: int)
    requires
        atom_tree(t, s, i, j),
    ensures
        node_count(t) <= j - i,
    decreases j - i, 0nat, 0nat,
{
    if !(j == i + 1 && !is_operator(s[i]) && t == Ast::Literal(s[i])) {
        lemma_alt_count(t, s, i + 1, j - 1);
    }
}

/// `c` is one of the quantifiers `*`, `+` and `?`.
pub open spec fn is_quantifier(c: char) -> bool {
    c == '*' || c == '+' || c == '?'
}

/// `c` can begin a `quantified`: a literal character or `(`.
pub open spec fn starts_atom(c: char) -> bool {
    !is_operator(c) || c == '('
}

/// An alternation may end at `j`: at the end of `s` or before `)`.
pub open spec fn ends_alt(s: Seq<char>, j: int) -> bool {
    j == s.len() || (0 <= j < s.len() && s[j] == ')')
}

/// A concatenation may end at `j`: where an alternation may, or before `|`.
pub open spec fn ends_concat(s: Seq<char>, j: int) -> bool {
    ends_alt(s, j) || (0 <= j < s.len() && s[j] == '|')
}

/// A `quantified` may end at `j`: where a concatenation may, or before the
/// start of another `quantified`.
pub open spec fn ends_quant(s: Seq<char>, j: int) -> bool {
    ends_concat(s, j) || (0 <= j < s.len() && starts_atom(s[j]))
}

/// A `quantified` begins with a character that can start one.
proof fn lemma_quant_starts(t: Ast, s: Seq<char>, i: int, j: int)
    requires
        quant_tree(t, s, i, j),
    ensures
        0 <= i < s.len(),
        starts_atom(s[i]),
{
    if !atom_tree(t, s, i, j) {
        let rep = t->Repetition_0;
        assert(atom_tree(*rep.ast, s, i, j - 1));
    }
}

/// The first `quantified` of a concatenation ends at `r`, where the
/// concatenation ends or the rest of it begins.
proof fn lemma_concat_front(list: Seq<Ast>, s: Seq<char>, i: int, j: int) -> (m: int)
    requires
        concat_list(list, s, i, j),
    ensures
        quant_tree(list[0], s, i, m),
        list.len() == 1 ==> m == j,
        list.len() >= 2 ==> concat_list(list.drop_first(), s, m, j),
        list.len() >= 1,
    decreases list.len(),
{
    if list.len() == 1 {
        j
    } else {
        let m1 = choose|m: int|
            #[trigger] strictly_between(i, m, j) && concat_list(list.drop_last(), s, i, m)
                && quant_tree(list.last(), s, m, j);
        let m = lemma_concat_front(list.drop_last(), s, i, m1);
        assert(list.drop_last()[0] == list[0]);
        let rest = list.drop_first();
        if list.len() == 2 {
            assert(rest =~= seq![list.last()]);
            assert(rest[0] == list.last());
        } else {
            assert(rest.drop_last() =~= list.drop_last().drop_first());
            assert(rest.last() == list.last());
            assert(concat_list(list.drop_last().drop_first(), s, m, m1));
            assert(m < m1);
            assert(strictly_between(m, m1, j));
        }
        m
    }
}

/// The first `concat` of an alternation ends at `r`, where the alternation
/// ends or a `|` comes before the rest of it.
proof fn lemma_alt_front(list: Seq<Ast>, s: Seq<char>, i: int, j: int) -> (m: int)
    requires
        alt_list(list, s, i, j),
    ensures
        concat_tree(list[0], s, i, m),
        list.len() == 1 ==> m == j,
        list.len() >= 2 ==> 0 <= m < s.len() && s[m] == '|' && alt_list(list.drop_first(), s, m + 1, j),
        list.len() >= 1,
    decreases list.len(),
{
    if list.len() == 1 {
        j
    } else {
        let m1 = choose|m: int|
            i < m < j - 1 && #[trigger] s[m] == '|' && alt_list(list.drop_last(), s, i, m)
                && concat_tree(list.last(), s, m + 1, j);
        let m = lemma_alt_front(list.drop_last(), s, i, m1);
        assert(list.drop_last()[0] == list[0]);
        let rest = list.drop_first();
        if list.len() == 2 {
            assert(rest =~= seq![list.last()]);
            assert(rest[0] == list.last());
            assert(m == m1);
        } else {
            assert(rest.drop_last() =~= list.drop_last().drop_first());
            assert(rest.last() == list.last());
            assert(alt_list(list.drop_last().drop_first(), s, m + 1, m1));
            assert(s[m1] == '|');
        }
        m
    }
}

/// Some non-empty list of `quantified`s makes up `s[i..j]`.
pub open spec fn concat_rest(s: Seq<char>, i: int, j: int) -> bool {
    exists|list: Seq<Ast>| #[trigger] concat_list(list, s, i, j)
}

/// `s[i]` is `|` and some non-empty list of `concat`s separated by `|`
/// makes up `s[i + 1..j]`.
pub open spec fn alt_rest(s: Seq<char>, i: int, j: int) -> bool {
    0 <= i < s.len() && s[i] == '|' && exists|list: Seq<Ast>| #[trigger] alt_list(list, s, i + 1, j)
}

/// A recursive-descent parser for the pattern grammar:
/// `alternate := concat ('|' concat)*`, `concat := quantified+`,
/// `quantified := (literal | '(' alternate ')') ('*' | '+' | '?')?`.
#[derive(Debug, PartialEq)]
pub struct Parser {
    lexer: Lexer,
    current_token: Token,
}

impl Parser {
    /// The characters of the pattern.
    pub closed spec fn spec_chars(&self) -> Seq<char> {
        self.lexer.spec_chars()
    }

    /// The position of the current token; the length of the pattern at its
    /// end.
    pub closed spec fn cursor(&self) -> int {
        if self.current_token is EndOfFile {
            self.lexer.spec_chars().len() as int
        } else {
            self.lexer.spec_pos() - 1
        }
    }

    /// The current token is the token at the cursor.
    pub closed spec fn wf(&self) -> bool {
        &&& self.lexer.wf()
        &&& 0 <= self.cursor() <= self.spec_chars().len()
        &&& self.current_token is EndOfFile ==> self.lexer.spec_pos() == self.lexer.spec_chars().len()
        &&& !(self.current_token is EndOfFile) ==> 1 <= self.lexer.spec_pos() && self.current_token
            == token_of(self.lexer.spec_chars()[self.lexer.spec_pos() - 1])
    }

    /// The current token is the token at the cursor.
    proof fn lemma_current(&self)
        requires
            self.wf(),
        ensures
            self.current_token == token_at(self.spec_chars(), self.cursor()),
    {
    }

    /// What remains to be read.
    pub open spec fn remaining(&self) -> nat {
        (self.spec_chars().len() - self.cursor()) as nat
    }

    pub fn new(pattern: &str) -> (r: Self)
        ensures
            r.wf(),
            r.spec_chars() == pattern@,
            r.cursor() == 0,
    {
        let mut lexer = Lexer::new(pattern);
        let current_token = lexer.next_token();
        Self { lexer, current_token }
    }

    /// Parses the rest of the pattern. Succeeds exactly when the rest has a
    /// parse tree under the grammar, with such a tree, which the automaton
    /// builder accepts; fails with a parse error otherwise.
    pub fn parse(&mut self) -> (r: Result<Ast, Error>)
        requires
            old(self).wf(),
        ensures
            final(self).wf(),
            final(self).spec_chars() == old(self).spec_chars(),
            r is Ok <==> exists|t: Ast|
                #[trigger] alt_tree(
                    t,
                    old(self).spec_chars(),
                    old(self).cursor(),
                    old(self).spec_chars().len() as int,
                ),
            r matches Ok(ast) ==> well_formed(ast) && alt_tree(
                ast,
                old(self).spec_chars(),
                old(self).cursor(),
                old(self).spec_chars().len() as int,
            ) && final(self).cursor() == final(self).spec_chars().len(),
            r matches Err(e) ==> e@ is ParseError,
    {
        let ghost chars = self.spec_chars();
        let ghost c0 = self.cursor();
        let ghost len = chars.len() as int;
        let ast = match self.parse_alternate() {
            Ok(ast) => ast,
            Err(e) => {
                proof {
                    assert forall|t: Ast| !#[trigger] alt_tree(t, chars, c0, len) by {
                        if alt_tree(t, chars, c0, len) {
                            assert(ends_alt(chars, len));
                        }
                    }
                }
                return Err(e);
            },
        };
        proof {
            self.lemma_current();
        }
        if let Token::EndOfFile = self.current_token {
            Ok(ast)
        } else {
            proof {
                assert forall|t: Ast| !#[trigger] alt_tree(t, chars, c0, len) by {
                    if alt_tree(t, chars, c0, len) {
                        assert(ends_alt(chars, len));
                    }
                }
            }
            Err(Error::parse("Unexpected token"))
        }
    }

    /// Moves to the next token.
    fn next(&mut self)
        requires
            old(self).wf(),
        ensures
            final(self).wf(),
            final(self).spec_chars() == old(self).spec_chars(),
            final(self).cursor() == if old(self).cursor() < old(self).spec_chars().len() {
                old(self).cursor() + 1
            } else {
                old(self).cursor()
            },
    {
        self.current_token = self.lexer.next_token();
    }

    /// `literal | group`: on success the tree of the atom at the cursor; it
    /// succeeds whenever the text at the cursor begins with an atom.
    fn parse_literal(&mut self) -> (r: Result<Ast, Error>)
        requires
            old(self).wf(),
        ensures
            final(self).wf(),
            final(self).spec_chars() == old(self).spec_chars(),
            old(self).cursor() <= final(self).cursor() <= final(self).spec_chars().len(),
            r matches Ok(ast) ==> well_formed(ast) && atom_tree(
                ast,
                old(self).spec_chars(),
                old(self).cursor(),
                final(self).cursor(),
            ),
            r matches Err(e) ==> e@ is ParseError,
            forall|t: Ast, j: int|
                #[trigger] atom_tree(t, old(self).spec_chars(), old(self).cursor(), j) ==> r is Ok
                    && final(self).cursor() == j,
            r is Ok <==> exists|t: Ast, j: int|
                #[trigger] atom_tree(t, old(self).spec_chars(), old(self).cursor(), j),
        decreases old(self).remaining(), 0nat,
    {
        let ghost chars = self.spec_chars();
        let ghost c0 = self.cursor();
        proof {
            self.lemma_current();
        }
        match self.current_token {
            Token::Character(c) => {
                self.next();
                proof {
                    assert(atom_tree(Ast::Literal(c), chars, c0, c0 + 1));
                }
                Ok(Ast::Literal(c))
            },
            Token::OpenParenthesis => {
                self.next();
                let ast = match self.parse_alternate() {
                    Ok(ast) => ast,
                    Err(e) => {
                        proof {
                            assert forall|t: Ast, j: int| !#[trigger] atom_tree(t, chars, c0, j) by {
                                if atom_tree(t, chars, c0, j) {
                                    assert(alt_tree(t, chars, c0 + 1, j - 1));
                                    assert(ends_alt(chars, j - 1));
                                }
                            }
                        }
                        return Err(e);
                    },
                };
                let ghost c1 = self.cursor();
                proof {
                    self.lemma_current();
                }
                if let Token::CloseParenthesis = self.current_token {
                    self.next();
                    proof {
                        assert forall|t: Ast, j: int| #[trigger] atom_tree(t, chars, c0, j) implies j == c1 + 1 by {
                            assert(alt_tree(t, chars, c0 + 1, j - 1));
                            assert(ends_alt(chars, j - 1));
                        }
                        assert(atom_tree(ast, chars, c0, c1 + 1));
                    }
                    Ok(ast)
                } else {
                    proof {
                        assert forall|t: Ast, j: int| !#[trigger] atom_tree(t, chars, c0, j) by {
                            if atom_tree(t, chars, c0, j) {
                                assert(alt_tree(t, chars, c0 + 1, j - 1));
                                assert(ends_alt(chars, j - 1));
                            }
                        }
                    }
                    Err(Error::parse("Close parenthesis is missing"))
                }
            },
            _ => {
                proof {
                    assert forall|t: Ast, j: int| !#[trigger] atom_tree(t, chars, c0, j) by {}
                }
                Err(Error::parse("Unexpected token"))
            },
        }
    }

    /// `concat`: the longest run of `quantified`s at the cursor; it succeeds
    /// whenever a concatenation at the cursor ends where one may end.
    fn parse_concat(&mut self) -> (r: Result<Ast, Error>)
        requires
            old(self).wf(),
        ensures
            final(self).wf(),
            final(self).spec_chars() == old(self).spec_chars(),
            old(self).cursor() <= final(self).cursor() <= final(self).spec_chars().len(),
            r matches Ok(ast) ==> well_formed(ast) && concat_tree(
                ast,
                old(self).spec_chars(),
                old(self).cursor(),
                final(self).cursor(),
            ),
            r matches Err(e) ==> e@ is ParseError,
            forall|t: Ast, j: int|
                #[trigger] concat_tree(t, old(self).spec_chars(), old(self).cursor(), j) && ends_concat(
                    old(self).spec_chars(),
                    j,
                ) ==> r is Ok && final(self).cursor() == j,
        decreases old(self).remaining(), 2nat,
    {
        let ghost chars = self.spec_chars();
        let ghost c0 = self.cursor();
        proof {
            assert forall|t: Ast, j: int|
                #[trigger] concat_tree(t, chars, c0, j) implies concat_rest(chars, c0, j) by {
                if !(t matches Ast::Concat(v) && v@.len() >= 2 && concat_list(v@, chars, c0, j)) {
                    assert(concat_list(seq![t], chars, c0, j));
                }
            }
        }
        let first = match self.parse_repetition() {
            Ok(node) => node,
            Err(e) => {
                proof {
                    assert forall|t: Ast, j: int|
                        #[trigger] concat_tree(t, chars, c0, j) implies !ends_concat(chars, j) by {
                        let list = choose|list: Seq<Ast>| #[trigger] concat_list(list, chars, c0, j);
                        let m = lemma_concat_front(list, chars, c0, j);
                        if list.len() >= 2 {
                            let m2 = lemma_concat_front(list.drop_first(), chars, m, j);
                            lemma_quant_starts(list.drop_first()[0], chars, m, m2);
                        }
                        assert(!ends_quant(chars, m));
                    }
                }
                return Err(e);
            },
        };
        let mut nodes = vec![first];
        proof {
            assert(nodes@ =~= seq![first]);
            assert forall|t: Ast, j: int|
                #[trigger] concat_tree(t, chars, c0, j) && ends_concat(chars, j) implies self.cursor() == j
                    || concat_rest(chars, self.cursor(), j) by {
                let list = choose|list: Seq<Ast>| #[trigger] concat_list(list, chars, c0, j);
                let m = lemma_concat_front(list, chars, c0, j);
                if list.len() >= 2 {
                    let m2 = lemma_concat_front(list.drop_first(), chars, m, j);
                    lemma_quant_starts(list.drop_first()[0], chars, m, m2);
                }
            }
        }
        while matches!(self.current_token, Token::Character(_) | Token::OpenParenthesis)
            invariant
                self.wf(),
                self.spec_chars() == chars,
                0 <= c0 < self.cursor() <= chars.len(),
                c0 == old(self).cursor(),
                chars == old(self).spec_chars(),
                nodes@.len() >= 1,
                forall|i: int| 0 <= i < nodes@.len() ==> well_formed(#[trigger] nodes@[i]),
                concat_list(nodes@, chars, c0, self.cursor()),
                forall|t: Ast, j: int|
                    #[trigger] concat_tree(t, chars, c0, j) && ends_concat(chars, j) ==> self.cursor() == j
                        || concat_rest(chars, self.cursor(), j),
            decreases self.remaining(),
        {
            let ghost c1 = self.cursor();
            let ghost before = nodes@;
            proof {
                self.lemma_current();
            }
            let node = match self.parse_repetition() {
                Ok(node) => node,
                Err(e) => {
                    proof {
                        assert forall|t: Ast, j: int|
                            #[trigger] concat_tree(t, chars, c0, j) implies !ends_concat(chars, j) by {
                            if ends_concat(chars, j) {
                                if c1 != j {
                                    let list = choose|list: Seq<Ast>| #[trigger] concat_list(list, chars, c1, j);
                                    let m = lemma_concat_front(list, chars, c1, j);
                                    if list.len() >= 2 {
                                        let m2 = lemma_concat_front(list.drop_first(), chars, m, j);
                                        lemma_quant_starts(list.drop_first()[0], chars, m, m2);
                                    }
                                    assert(!ends_quant(chars, m));
                                }
                            }
                        }
                    }
                    return Err(e);
                },
            };
            nodes.push(node);
            proof {
                assert(nodes@.drop_last() =~= before);
                assert(nodes@.last() == node);
                assert(strictly_between(c0, c1, self.cursor()));
                assert(concat_list(nodes@, chars, c0, self.cursor()));
                assert forall|t: Ast, j: int|
                    #[trigger] concat_tree(t, chars, c0, j) && ends_concat(chars, j) implies self.cursor() == j
                        || concat_rest(chars, self.cursor(), j) by {
                    if c1 != j {
                        let list = choose|list: Seq<Ast>| #[trigger] concat_list(list, chars, c1, j);
                        let m = lemma_concat_front(list, chars, c1, j);
                        if list.len() >= 2 {
                            let m2 = lemma_concat_front(list.drop_first(), chars, m, j);
                            lemma_quant_starts(list.drop_first()[0], chars, m, m2);
                        }
                    }
                }
            }
        }
        proof {
            self.lemma_current();
            assert forall|t: Ast, j: int|
                #[trigger] concat_tree(t, chars, c0, j) && ends_concat(chars, j) implies self.cursor() == j by {
                if self.cursor() != j {
                    let list = choose|list: Seq<Ast>| #[trigger] concat_list(list, chars, self.cursor(), j);
                    let m = lemma_concat_front(list, chars, self.cursor(), j);
                    lemma_quant_starts(list[0], chars, self.cursor(), m);
                }
            }
        }
        match nodes.len() {
            0 => Err(Error::parse("Expected at least one node in concat")),
            1 => {
                let node = nodes.pop().unwrap();
                Ok(node)
            },
            _ => Ok(Ast::Concat(nodes)),
        }
    }

    /// `alternate`: `concat`s separated by `|`; it succeeds whenever an
    /// alternation at the cursor ends where one may end.
    fn parse_alternate(&mut self) -> (r: Result<Ast, Error>)
        requires
            old(self).wf(),
        ensures
            final(self).wf(),
            final(self).spec_chars() == old(self).spec_chars(),
            old(self).cursor() <= final(self).cursor() <= final(self).spec_chars().len(),
            r matches Ok(ast) ==> well_formed(ast) && alt_tree(
                ast,
                old(self).spec_chars(),
                old(self).cursor(),
                final(self).cursor(),
            ),
            r matches Err(e) ==> e@ is ParseError,
            forall|t: Ast, j: int|
                #[trigger] alt_tree(t, old(self).spec_chars(), old(self).cursor(), j) && ends_alt(
                    old(self).spec_chars(),
                    j,
                ) ==> r is Ok && final(self).cursor() == j,
        decreases old(self).remaining(), 3nat,
    {
        let ghost chars = self.spec_chars();
        let ghost c0 = self.cursor();
        proof {
            assert forall|t: Ast, j: int|
                #[trigger] alt_tree(t, chars, c0, j) implies exists|list: Seq<Ast>| #[trigger] alt_list(list, chars, c0, j) by {
                if !(t matches Ast::Alternate(v) && v@.len() >= 2 && alt_list(v@, chars, c0, j)) {
                    assert(alt_list(seq![t], chars, c0, j));
                }
            }
        }
        let first = match self.parse_concat() {
            Ok(node) => node,
            Err(e) => {
                proof {
                    assert forall|t: Ast, j: int|
                        #[trigger] alt_tree(t, chars, c0, j) implies !ends_alt(chars, j) by {
                        let list = choose|list: Seq<Ast>| #[trigger] alt_list(list, chars, c0, j);
                        let m = lemma_alt_front(list, chars, c0, j);
                        assert(!ends_concat(chars, m));
                    }
                }
                return Err(e);
            },
        };
        let mut nodes = vec![first];
        proof {
            assert(nodes@ =~= seq![first]);
            assert forall|t: Ast, j: int|
                #[trigger] alt_tree(t, chars, c0, j) && ends_alt(chars, j) implies self.cursor() == j
                    || alt_rest(chars, self.cursor(), j) by {
                let list = choose|list: Seq<Ast>| #[trigger] alt_list(list, chars, c0, j);
                let m = lemma_alt_front(list, chars, c0, j);
            }
        }
        while matches!(self.current_token, Token::AlternateOperator)
            invariant
                self.wf(),
                self.spec_chars() == chars,
                0 <= c0 < self.cursor() <= chars.len(),
                c0 == old(self).cursor(),
                chars == old(self).spec_chars(),
                nodes@.len() >= 1,
                forall|i: int| 0 <= i < nodes@.len() ==> well_formed(#[trigger] nodes@[i]),
                alt_list(nodes@, chars, c0, self.cursor()),
                forall|t: Ast, j: int|
                    #[trigger] alt_tree(t, chars, c0, j) && ends_alt(chars, j) ==> self.cursor() == j
                        || alt_rest(chars, self.cursor(), j),
            decreases self.remaining(),
        {
            let ghost c1 = self.cursor();
            let ghost before = nodes@;
            proof {
                self.lemma_current();
            }
            self.next();
            let node = match self.parse_concat() {
                Ok(node) => node,
                Err(e) => {
                    proof {
                        assert forall|t: Ast, j: int|
                            #[trigger] alt_tree(t, chars, c0, j) implies !ends_alt(chars, j) by {
                            if ends_alt(chars, j) && c1 != j {
                                let list = choose|list: Seq<Ast>| #[trigger] alt_list(list, chars, c1 + 1, j);
                                let m = lemma_alt_front(list, chars, c1 + 1, j);
                                assert(!ends_concat(chars, m));
                            }
                        }
                    }
                    return Err(e);
                },
            };
            nodes.push(node);
            proof {
                assert(nodes@.drop_last() =~= before);
                assert(chars[c1] == '|');
                assert(concat_tree(nodes@.last(), chars, c1 + 1, self.cursor()));
                assert forall|t: Ast, j: int|
                    #[trigger] alt_tree(t, chars, c0, j) && ends_alt(chars, j) implies self.cursor() == j
                        || alt_rest(chars, self.cursor(), j) by {
                    if c1 != j {
                        let list = choose|list: Seq<Ast>| #[trigger] alt_list(list, chars, c1 + 1, j);
                        let m = lemma_alt_front(list, chars, c1 + 1, j);
                    }
                }
            }
        }
        proof {
            self.lemma_current();
        }
        match nodes.len() {
            0 => Err(Error::parse("Expected at least one node in alternate")),
            1 => {
                let node = nodes.pop().unwrap();
                Ok(node)
            },
            _ => Ok(Ast::Alternate(nodes)),
        }
    }

    /// `quantified`: an atom and at most one quantifier after it; it succeeds
    /// whenever a `quantified` at the cursor ends where one may end.
    fn parse_repetition(&mut self) -> (r: Result<Ast, Error>)
        requires
            old(self).wf(),
        ensures
            final(self).wf(),
            final(self).spec_chars() == old(self).spec_chars(),
            old(self).cursor() <= final(self).cursor() <= final(self).spec_chars().len(),
            r matches Ok(ast) ==> well_formed(ast) && quant_tree(
                ast,
                old(self).spec_chars(),
                old(self).cursor(),
                final(self).cursor(),
            ),
            r matches Err(e) ==> e@ is ParseError,
            forall|t: Ast, j: int|
                #[trigger] quant_tree(t, old(self).spec_chars(), old(self).cursor(), j) && ends_quant(
                    old(self).spec_chars(),
                    j,
                ) ==> r is Ok && final(self).cursor() == j,
            r is Ok <==> exists|t: Ast, j: int|
                #[trigger] atom_tree(t, old(self).spec_chars(), old(self).cursor(), j),
            forall|t: Ast, j: int|
                #[trigger] atom_tree(t, old(self).spec_chars(), old(self).cursor(), j) ==> {
                    let chars = old(self).spec_chars();
                    if j < chars.len() && is_quantifier(chars[j]) {
                        &&& r matches Ok(a) && a matches Ast::Repetition(rep) && quantifier_bounds(
                            chars[j],
                            rep.min,
                            rep.max,
                        ) && atom_tree(*rep.ast, chars, old(self).cursor(), j)
                        &&& final(self).cursor() == j + 1
                    } else {
                        &&& r matches Ok(a) && atom_tree(a, chars, old(self).cursor(), j)
                        &&& final(self).cursor() == j
                    }
                },
        decreases old(self).remaining(), 1nat,
    {
        let ghost chars = self.spec_chars();
        let ghost c0 = self.cursor();
        let ast = match self.parse_literal() {
            Ok(ast) => ast,
            Err(e) => {
                proof {
                    assert forall|t: Ast, j: int| !#[trigger] atom_tree(t, chars, c0, j) by {}
                    assert forall|t: Ast, j: int| !#[trigger] quant_tree(t, chars, c0, j) by {
                        if quant_tree(t, chars, c0, j) && !atom_tree(t, chars, c0, j) {
                            assert(atom_tree(*t->Repetition_0.ast, chars, c0, j - 1));
                        }
                    }
                }
                return Err(e);
            },
        };
        let ghost c1 = self.cursor();
        proof {
            self.lemma_current();
            assert(atom_tree(ast, chars, c0, c1));
        }
        let bounds: Option<(u32, Option<u32>)> = match self.current_token {
            Token::StarOperator => Some((0, None)),
            Token::PlusOperator => Some((1, None)),
            Token::QuestionOperator => Some((0, Some(1))),
            _ => None,
        };
        match bounds {
            Some((min, max)) => {
                self.next();
                proof {
                    assert(quantifier_bounds(chars[c1], min, max));
                    assert forall|t: Ast, j: int|
                        #[trigger] quant_tree(t, chars, c0, j) && ends_quant(chars, j) implies j == c1 + 1 by {
                        if atom_tree(t, chars, c0, j) {
                        } else {
                            assert(atom_tree(*t->Repetition_0.ast, chars, c0, j - 1));
                        }
                    }
                }
                Ok(Ast::Repetition(Repetition { ast: Box::new(ast), min, max }))
            },
            None => {
                proof {
                    assert forall|t: Ast, j: int|
                        #[trigger] quant_tree(t, chars, c0, j) && ends_quant(chars, j) implies j == c1 by {
                        if atom_tree(t, chars, c0, j) {
                        } else {
                            assert(atom_tree(*t->Repetition_0.ast, chars, c0, j - 1));
                        }
                    }
                }
                Ok(ast)
            },
        }
    }
}

} // verus!
