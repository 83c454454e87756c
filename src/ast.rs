use vstd::prelude::*;

pub mod lexer;
pub mod parser;

verus! {

/// The syntax tree of a pattern.
#[derive(Debug, PartialEq)]
pub enum Ast {
    /// One character, matched as itself.
    Literal(char),
    /// The elements, one after another.
    Concat(Vec<Ast>),
    /// Any one of the elements.
    Alternate(Vec<Ast>),
    /// The inner tree, repeated a bounded or unbounded number of times.
    Repetition(Repetition),
}

/// `ast` repeated at least `min` and at most `max` times (no upper bound
/// when `max` is `None`).
#[derive(Debug, PartialEq)]
pub struct Repetition {
    pub ast: Box<Ast>,
    pub min: u32,
    pub max: Option<u32>,
}

/// The string `s` is in the language of `r`.
pub open spec fn in_lang(r: Ast, s: Seq<char>) -> bool
    decreases r, 0nat, 0nat,
{
    match r {
        Ast::Literal(c) => s == seq![c],
        Ast::Concat(v) => matches_concat(v@, s),
        Ast::Alternate(v) => exists|i: int| 0 <= i < v@.len() && in_lang(#[trigger] v@[i], s),
        Ast::Repetition(rep) => exists|k: nat|
            #[trigger] within_bounds(k, rep.min, rep.max) && matches_count(*rep.ast, k, s),
    }
}

/// `k` lies between `min` and `max` (no upper bound when `max` is `None`).
pub open spec fn within_bounds(k: nat, min: u32, max: Option<u32>) -> bool {
    min <= k && (max matches Some(m) ==> k <= m)
}

/// The string `s` splits into consecutive pieces matched by the elements of
/// `list`, in order.
pub open spec fn matches_concat(list: Seq<Ast>, s: Seq<char>) -> bool
    decreases list, 0nat, 0nat,
{
    if list.len() == 0 {
        s.len() == 0
    } else {
        exists|i: int|
            0 <= i <= s.len() && matches_concat(list.drop_last(), #[trigger] s.subrange(0, i))
                && in_lang(list.last(), s.subrange(i, s.len() as int))
    }
}

/// The string `s` splits into exactly `k` consecutive pieces, each matched
/// by `r`.
pub open spec fn matches_count(r: Ast, k: nat, s: Seq<char>) -> bool
    decreases r, 1nat, k,
{
    if k == 0 {
        s.len() == 0
    } else {
        exists|i: int|
            0 <= i <= s.len() && in_lang(r, #[trigger] s.subrange(0, i)) && matches_count(
                r,
                (k - 1) as nat,
                s.subrange(i, s.len() as int),
            )
    }
}

/// The repetition bounds that the automaton builder implements:
/// `?` is (0, 1), `*` is (0, unbounded) and `+` is (1, unbounded).
pub open spec fn supported_bounds(min: u32, max: Option<u32>) -> bool {
    (min == 0 && max == Some(1u32)) || (min == 0 && max is None) || (min == 1 && max is None)
}

/// Every list in `r` is non-empty and every repetition has supported bounds.
pub open spec fn well_formed(r: Ast) -> bool
    decreases r,
{
    match r {
        Ast::Literal(_) => true,
        Ast::Concat(v) => v@.len() > 0 && forall|i: int|
            0 <= i < v@.len() ==> well_formed(#[trigger] v@[i]),
        Ast::Alternate(v) => v@.len() > 0 && forall|i: int|
            0 <= i < v@.len() ==> well_formed(#[trigger] v@[i]),
        Ast::Repetition(rep) => supported_bounds(rep.min, rep.max) && well_formed(*rep.ast),
    }
}

/// The number of literal, alternation and repetition nodes of `r`; the
/// automaton builder makes two states for each.
pub open spec fn node_count(r: Ast) -> nat
    decreases r, 0nat,
{
    match r {
        Ast::Literal(_) => 1,
        Ast::Concat(v) => count_list(v@),
        Ast::Alternate(v) => 1 + count_list(v@),
        Ast::Repetition(rep) => 1 + node_count(*rep.ast),
    }
}

/// The sum of `node_count` over `list`.
pub open spec fn count_list(list: Seq<Ast>) -> nat
    decreases list, 0nat,
{
    if list.len() == 0 {
        0
    } else {
        count_list(list.drop_last()) + node_count(list.last())
    }
}

/// The pattern characters that are operators of the grammar.
pub open spec fn is_operator(c: char) -> bool {
    c == '|' || c == '*' || c == '+' || c == '?' || c == '(' || c == ')'
}

/// A concatenation of one element has that element's language.
pub proof fn lemma_concat_single(list: Seq<Ast>, s: Seq<char>)
    requires
        list.len() == 1,
    ensures
        matches_concat(list, s) == in_lang(list[0], s),
{
    assert(list.drop_last() =~= Seq::<Ast>::empty());
    assert(s.subrange(0, s.len() as int) =~= s);
    if in_lang(list[0], s) {
        assert(s.subrange(0, 0) =~= Seq::<char>::empty());
        assert(matches_concat(list.drop_last(), s.subrange(0, 0)));
    }
    if matches_concat(list, s) {
        let i = choose|i: int|
            0 <= i <= s.len() && matches_concat(list.drop_last(), #[trigger] s.subrange(0, i))
                && in_lang(list.last(), s.subrange(i, s.len() as int));
        assert(s.subrange(0, i).len() == 0);
        assert(i == 0);
    }
}

/// The language of `?`: none or one string of the inner tree.
pub proof fn lemma_optional_lang(rep: Repetition, s: Seq<char>)
    requires
        rep.min == 0,
        rep.max == Some(1u32),
    ensures
        in_lang(Ast::Repetition(rep), s) == exists|n: nat|
            n <= 1 && #[trigger] matches_count(*rep.ast, n, s),
{
    if in_lang(Ast::Repetition(rep), s) {
        let k = choose|k: nat|
            #[trigger] within_bounds(k, rep.min, rep.max) && matches_count(*rep.ast, k, s);
        assert(k <= 1 && matches_count(*rep.ast, k, s));
    }
    if exists|n: nat| n <= 1 && #[trigger] matches_count(*rep.ast, n, s) {
        let k = choose|n: nat| n <= 1 && #[trigger] matches_count(*rep.ast, n, s);
        assert(within_bounds(k, rep.min, rep.max) && matches_count(*rep.ast, k, s));
    }
}

/// The language of `*` (`n` is 0) and of `+` (`n` is 1): at least `n`
/// strings of the inner tree in a row.
pub proof fn lemma_at_least_lang(rep: Repetition, n: nat, s: Seq<char>)
    requires
        rep.min == n,
        n <= 1,
        rep.max is None,
    ensures
        in_lang(Ast::Repetition(rep), s) == exists|m: nat|
            (n == 0 || m >= 1) && #[trigger] matches_count(*rep.ast, m, s),
{
    if in_lang(Ast::Repetition(rep), s) {
        let k = choose|k: nat|
            #[trigger] within_bounds(k, rep.min, rep.max) && matches_count(*rep.ast, k, s);
        assert((n == 0 || k >= 1) && matches_count(*rep.ast, k, s));
    }
    if exists|m: nat| (n == 0 || m >= 1) && #[trigger] matches_count(*rep.ast, m, s) {
        let k = choose|m: nat| (n == 0 || m >= 1) && #[trigger] matches_count(*rep.ast, m, s);
        assert(within_bounds(k, rep.min, rep.max) && matches_count(*rep.ast, k, s));
    }
}

} // verus!
