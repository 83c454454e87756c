use vstd::prelude::*;

use crate::nfa::paths::{
    accepts, agree, fpath, inside, lemma_append, lemma_exclude_dead, lemma_exit, lemma_transfer,
    path, region_closed, rest,
};
use crate::ast::{in_lang, matches_count, Ast};
use crate::nfa::{State, Transition, TransitionKind};

verus! {

/// Some walk from `st` to `en`, leaving only states of `[lo, hi)` other than
/// `en`, reads `s`.
pub open spec fn reads(g: Seq<State>, lo: int, hi: int, st: int, en: int, s: Seq<char>) -> bool {
    exists|k: nat| #[trigger] fpath(g, lo, hi, en, st, s, en, k)
}

/// The states `[lo, hi)` form a sub-automaton with entry `st` and exit `en`
/// whose walks from entry to exit read exactly the strings of `l`.
pub open spec fn sub_automaton(
    g: Seq<State>,
    lo: int,
    hi: int,
    st: int,
    en: int,
    l: spec_fn(Seq<char>) -> bool,
) -> bool {
    &&& 0 <= lo <= st < hi
    &&& lo <= en < hi
    &&& st != en
    &&& hi <= g.len()
    &&& region_closed(g, lo, hi, en)
    &&& forall|s: Seq<char>| l(s) <==> #[trigger] reads(g, lo, hi, st, en, s)
}

/// `t` is an epsilon transition to `to`.
pub open spec fn is_eps_to(t: Transition, to: int) -> bool {
    t.kind is Epsilon && t.to_id == to
}

/// A sub-automaton keeps its language while the states it may leave keep
/// their transitions.
pub proof fn lemma_fragment_transfer(
    g1: Seq<State>,
    g2: Seq<State>,
    lo: int,
    hi: int,
    st: int,
    en: int,
    l: spec_fn(Seq<char>) -> bool,
)
    requires
        sub_automaton(g1, lo, hi, st, en, l),
        hi <= g2.len(),
        forall|w: int| inside(lo, hi, en, w) ==> #[trigger] g2[w].transitions() == g1[w].transitions(),
    ensures
        sub_automaton(g2, lo, hi, st, en, l),
{
    assert(agree(g1, lo, hi, en, g2, lo, hi, en));
    assert(agree(g2, lo, hi, en, g1, lo, hi, en));
    assert forall|w: int, i: int|
        inside(lo, hi, en, w) && 0 <= i < g2[w].transitions().len() implies lo <= (
        #[trigger] g2[w].transitions()[i]).to_id < hi by {
        assert(g2[w].transitions() == g1[w].transitions());
        assert(g1[w].transitions()[i] == g2[w].transitions()[i]);
    }
    assert forall|s: Seq<char>| l(s) <==> #[trigger] reads(g2, lo, hi, st, en, s) by {
        if reads(g1, lo, hi, st, en, s) {
            let k = choose|k: nat| #[trigger] fpath(g1, lo, hi, en, st, s, en, k);
            lemma_transfer(g1, lo, hi, en, g2, lo, hi, en, st, s, en, k);
        }
        if reads(g2, lo, hi, st, en, s) {
            let k = choose|k: nat| #[trigger] fpath(g2, lo, hi, en, st, s, en, k);
            lemma_transfer(g2, lo, hi, en, g1, lo, hi, en, st, s, en, k);
        }
    }
}

/// Two fresh states joined by one transition on `c` read exactly `c`.
pub proof fn lemma_literal(g: Seq<State>, st: int, c: char)
    requires
        0 <= st,
        st + 2 <= g.len(),
        g[st].transitions().len() == 1,
        g[st].transitions()[0].to_id == st + 1,
        g[st].transitions()[0].kind == TransitionKind::Literal(c),
        g[st + 1].transitions().len() == 0,
    ensures
        sub_automaton(g, st, st + 2, st, st + 1, |s: Seq<char>| s == seq![c]),
{
    let en = st + 1;
    let lit = TransitionKind::Literal(c);
    assert forall|s: Seq<char>| (s == seq![c]) <==> #[trigger] reads(g, st, st + 2, st, en, s) by {
        if s == seq![c] {
            assert(rest(lit, s) == Some(Seq::<char>::empty())) by {
                assert(s.drop_first() =~= Seq::<char>::empty());
            }
            assert(g[st].transitions()[0].kind == lit);
            assert(fpath(g, st, st + 2, en, en, Seq::<char>::empty(), en, 0));
            assert(fpath(g, st, st + 2, en, st, s, en, 1));
        }
        if reads(g, st, st + 2, st, en, s) {
            let k = choose|k: nat| #[trigger] fpath(g, st, st + 2, en, st, s, en, k);
            assert(k > 0);
            assert(g[st].transitions()[0].kind == lit);
            let r = rest(lit, s)->0;
            assert(fpath(g, st, st + 2, en, en, r, en, (k - 1) as nat));
            assert(r.len() == 0);
            assert(s =~= seq![c]);
        }
    }
}

/// The strings made of a string of `la` followed by a string of `lb`.
pub open spec fn concat_lang(
    la: spec_fn(Seq<char>) -> bool,
    lb: spec_fn(Seq<char>) -> bool,
) -> spec_fn(Seq<char>) -> bool {
    |s: Seq<char>|
        exists|i: int|
            0 <= i <= s.len() && la(#[trigger] s.subrange(0, i)) && lb(
                s.subrange(i, s.len() as int),
            )
}

/// A walk from a state whose only transition is an epsilon one continues
/// from that transition's target.
pub proof fn lemma_through_eps(
    g: Seq<State>,
    lo: int,
    hi: int,
    ex: int,
    u: int,
    w: int,
    s: Seq<char>,
    v: int,
    k: nat,
)
    requires
        0 <= u < g.len(),
        inside(lo, hi, ex, u),
        g[u].transitions().len() == 1,
        is_eps_to(g[u].transitions()[0], w),
    ensures
        fpath(g, lo, hi, ex, w, s, v, k) ==> fpath(g, lo, hi, ex, u, s, v, k + 1),
        u != v && fpath(g, lo, hi, ex, u, s, v, k) ==> k > 0 && fpath(
            g,
            lo,
            hi,
            ex,
            w,
            s,
            v,
            (k - 1) as nat,
        ),
{
    assert(rest(g[u].transitions()[0].kind, s) == Some(s));
}

/// Joining the exit of one sub-automaton to the entry of the next by an
/// epsilon transition concatenates their languages.
pub proof fn lemma_concat_step(
    g: Seq<State>,
    a0: int,
    a1: int,
    sa: int,
    ea: int,
    la: spec_fn(Seq<char>) -> bool,
    b1: int,
    sb: int,
    eb: int,
    lb: spec_fn(Seq<char>) -> bool,
)
    requires
        sub_automaton(g, a0, a1, sa, ea, la),
        sub_automaton(g, a1, b1, sb, eb, lb),
        g[ea].transitions().len() == 1,
        is_eps_to(g[ea].transitions()[0], sb),
    ensures
        sub_automaton(g, a0, b1, sa, eb, concat_lang(la, lb)),
{
    assert forall|w: int, i: int|
        inside(a0, b1, eb, w) && 0 <= i < g[w].transitions().len() implies a0 <= (
        #[trigger] g[w].transitions()[i]).to_id < b1 by {
        if w < a1 && w != ea {
            assert(inside(a0, a1, ea, w));
        } else if w >= a1 {
            assert(inside(a1, b1, eb, w));
        }
    }
    assert(agree(g, a0, a1, ea, g, a0, b1, eb));
    assert(agree(g, a1, b1, eb, g, a0, b1, eb));
    assert forall|s: Seq<char>| concat_lang(la, lb)(s) <==> #[trigger] reads(g, a0, b1, sa, eb, s) by {
        if concat_lang(la, lb)(s) {
            let i = choose|i: int|
                0 <= i <= s.len() && la(#[trigger] s.subrange(0, i)) && lb(
                    s.subrange(i, s.len() as int),
                );
            let s1 = s.subrange(0, i);
            let s2 = s.subrange(i, s.len() as int);
            assert(reads(g, a0, a1, sa, ea, s1));
            assert(reads(g, a1, b1, sb, eb, s2));
            let k1 = choose|k: nat| #[trigger] fpath(g, a0, a1, ea, sa, s1, ea, k);
            let k2 = choose|k: nat| #[trigger] fpath(g, a1, b1, eb, sb, s2, eb, k);
            lemma_transfer(g, a0, a1, ea, g, a0, b1, eb, sa, s1, ea, k1);
            lemma_transfer(g, a1, b1, eb, g, a0, b1, eb, sb, s2, eb, k2);
            lemma_through_eps(g, a0, b1, eb, ea, sb, s2, eb, k2);
            lemma_append(g, a0, b1, eb, sa, s1, ea, k1, s2, eb, k2 + 1);
            assert(s1 + s2 =~= s);
        }
        if reads(g, a0, b1, sa, eb, s) {
            let k = choose|k: nat| #[trigger] fpath(g, a0, b1, eb, sa, s, eb, k);
            let r = lemma_exit(g, a0, b1, eb, a0, a1, ea, sa, s, eb, k);
            let s1 = s.subrange(0, r.0);
            let s2 = s.subrange(r.0, s.len() as int);
            assert(reads(g, a0, a1, sa, ea, s1));
            lemma_through_eps(g, a0, b1, eb, ea, sb, s2, eb, r.2);
            let r2 = lemma_exit(g, a0, b1, eb, a1, b1, eb, sb, s2, eb, (r.2 - 1) as nat);
            let tail = s2.subrange(r2.0, s2.len() as int);
            assert(fpath(g, a0, b1, eb, eb, tail, eb, r2.2));
            assert(r2.2 == 0);
            assert(s2.subrange(0, r2.0) =~= s2);
            assert(reads(g, a1, b1, sb, eb, s2));
        }
    }
}

/// A sub-automaton's language may be given by any predicate that agrees with
/// it on every string.
pub proof fn lemma_fragment_lang(
    g: Seq<State>,
    lo: int,
    hi: int,
    st: int,
    en: int,
    l1: spec_fn(Seq<char>) -> bool,
    l2: spec_fn(Seq<char>) -> bool,
)
    requires
        sub_automaton(g, lo, hi, st, en, l1),
        forall|s: Seq<char>| #[trigger] l1(s) == l2(s),
    ensures
        sub_automaton(g, lo, hi, st, en, l2),
{
    assert forall|s: Seq<char>| l2(s) <==> #[trigger] reads(g, lo, hi, st, en, s) by {
        assert(l1(s) == l2(s));
    }
}

/// A walk that leaves a state with epsilon transitions only goes on from one
/// of their targets, which `r` names by index.
pub proof fn lemma_eps_out(
    g: Seq<State>,
    lo: int,
    hi: int,
    ex: int,
    u: int,
    s: Seq<char>,
    v: int,
    k: nat,
) -> (r: int)
    requires
        fpath(g, lo, hi, ex, u, s, v, k),
        k > 0,
        forall|i: int|
            0 <= i < g[u].transitions().len() ==> (#[trigger] g[u].transitions()[i]).kind is Epsilon,
    ensures
        0 <= r < g[u].transitions().len(),
        fpath(g, lo, hi, ex, g[u].transitions()[r].to_id as int, s, v, (k - 1) as nat),
{
    let ts = g[u].transitions();
    let i = choose|i: int|
        0 <= i < ts.len() && #[trigger] rest(ts[i].kind, s) is Some && fpath(
            g,
            lo,
            hi,
            ex,
            ts[i].to_id as int,
            rest(ts[i].kind, s)->0,
            v,
            (k - 1) as nat,
        );
    assert(ts[i].kind is Epsilon);
    i
}

/// An epsilon transition of a state that may be left extends a walk from its
/// target backwards by one step.
pub proof fn lemma_eps_in(
    g: Seq<State>,
    lo: int,
    hi: int,
    ex: int,
    u: int,
    m: int,
    s: Seq<char>,
    v: int,
    k: nat,
)
    requires
        0 <= u < g.len(),
        inside(lo, hi, ex, u),
        0 <= m < g[u].transitions().len(),
        g[u].transitions()[m].kind is Epsilon,
        fpath(g, lo, hi, ex, g[u].transitions()[m].to_id as int, s, v, k),
    ensures
        fpath(g, lo, hi, ex, u, s, v, k + 1),
{
    assert(rest(g[u].transitions()[m].kind, s) == Some(s));
}

/// A walk from a state that may not be left stays there and reads nothing.
pub proof fn lemma_stuck(g: Seq<State>, lo: int, hi: int, ex: int, s: Seq<char>, v: int, k: nat)
    requires
        fpath(g, lo, hi, ex, ex, s, v, k),
    ensures
        k == 0,
        v == ex,
        s.len() == 0,
{
}

/// The layout of an alternation: a fresh entry `lo` with an epsilon
/// transition to the entry of each branch, in order, a fresh exit `lo + 1`,
/// and each branch's exit with a single epsilon transition to it.
pub open spec fn alternation_layout(
    g: Seq<State>,
    lo: int,
    hi: int,
    kids: Seq<(int, int, int, int)>,
    list: Seq<Ast>,
) -> bool {
    &&& 0 <= lo
    &&& lo + 2 <= hi <= g.len()
    &&& kids.len() == list.len()
    &&& g[lo].transitions().len() == kids.len()
    &&& g[lo + 1].transitions().len() == 0
    &&& region_closed(g, lo, hi, lo + 1)
    &&& forall|i: int|
        0 <= i < kids.len() ==> {
            &&& is_eps_to(#[trigger] g[lo].transitions()[i], kids[i].2)
            &&& sub_automaton(
                g,
                kids[i].0,
                kids[i].1,
                kids[i].2,
                kids[i].3,
                |s: Seq<char>| in_lang(list[i], s),
            )
            &&& lo + 2 <= kids[i].0
            &&& kids[i].1 <= hi
            &&& g[kids[i].3].transitions().len() == 1
            &&& is_eps_to(g[kids[i].3].transitions()[0], lo + 1)
        }
}

/// An alternation reads the strings that some branch reads.
pub proof fn lemma_alternate(
    g: Seq<State>,
    lo: int,
    hi: int,
    kids: Seq<(int, int, int, int)>,
    list: Seq<Ast>,
)
    requires
        alternation_layout(g, lo, hi, kids, list),
    ensures
        sub_automaton(
            g,
            lo,
            hi,
            lo,
            lo + 1,
            |s: Seq<char>| exists|i: int| 0 <= i < list.len() && in_lang(#[trigger] list[i], s),
        ),
{
    let e0 = lo + 1;
    let l = |s: Seq<char>| exists|i: int| 0 <= i < list.len() && in_lang(#[trigger] list[i], s);
    assert forall|s: Seq<char>| l(s) <==> #[trigger] reads(g, lo, hi, lo, e0, s) by {
        if l(s) {
            let i = choose|i: int| 0 <= i < list.len() && in_lang(#[trigger] list[i], s);
            let kid = kids[i];
            assert(is_eps_to(g[lo].transitions()[i], kid.2));
            assert(sub_automaton(g, kid.0, kid.1, kid.2, kid.3, |s: Seq<char>| in_lang(list[i], s)));
            assert(reads(g, kid.0, kid.1, kid.2, kid.3, s));
            let k = choose|k: nat| #[trigger] fpath(g, kid.0, kid.1, kid.3, kid.2, s, kid.3, k);
            assert(agree(g, kid.0, kid.1, kid.3, g, lo, hi, e0));
            lemma_transfer(g, kid.0, kid.1, kid.3, g, lo, hi, e0, kid.2, s, kid.3, k);
            assert(fpath(g, lo, hi, e0, e0, Seq::<char>::empty(), e0, 0));
            lemma_eps_in(g, lo, hi, e0, kid.3, 0, Seq::<char>::empty(), e0, 0);
            lemma_append(g, lo, hi, e0, kid.2, s, kid.3, k, Seq::<char>::empty(), e0, 1);
            assert(s + Seq::<char>::empty() =~= s);
            lemma_eps_in(g, lo, hi, e0, lo, i, s, e0, k + 1);
        }
        if reads(g, lo, hi, lo, e0, s) {
            let k = choose|k: nat| #[trigger] fpath(g, lo, hi, e0, lo, s, e0, k);
            assert forall|i: int| 0 <= i < g[lo].transitions().len() implies (
            #[trigger] g[lo].transitions()[i]).kind is Epsilon by {
                assert(is_eps_to(g[lo].transitions()[i], kids[i].2));
            }
            let m = lemma_eps_out(g, lo, hi, e0, lo, s, e0, k);
            let kid = kids[m];
            assert(is_eps_to(g[lo].transitions()[m], kid.2));
            assert(sub_automaton(g, kid.0, kid.1, kid.2, kid.3, |s: Seq<char>| in_lang(list[m], s)));
            let r = lemma_exit(g, lo, hi, e0, kid.0, kid.1, kid.3, kid.2, s, e0, (k - 1) as nat);
            let tail = s.subrange(r.0, s.len() as int);
            assert(forall|i: int|
                0 <= i < g[kid.3].transitions().len() ==> (
                #[trigger] g[kid.3].transitions()[i]).kind is Epsilon);
            let m2 = lemma_eps_out(g, lo, hi, e0, kid.3, tail, e0, r.2);
            lemma_stuck(g, lo, hi, e0, tail, e0, (r.2 - 1) as nat);
            assert(s.subrange(0, r.0) =~= s);
            assert(reads(g, kid.0, kid.1, kid.2, kid.3, s));
            assert(in_lang(list[m], s));
        }
    }
}

/// The layout shared by `*` and `+`: a sub-automaton for `r` inside
/// `[lo + 2, hi)` whose exit loops back to its entry or goes on to the fresh
/// exit `lo + 1`.
pub open spec fn loop_layout(g: Seq<State>, lo: int, hi: int, kid: (int, int, int, int), r: Ast) -> bool {
    &&& 0 <= lo
    &&& lo + 2 <= kid.0
    &&& kid.1 <= hi <= g.len()
    &&& sub_automaton(g, kid.0, kid.1, kid.2, kid.3, |s: Seq<char>| in_lang(r, s))
    &&& region_closed(g, lo, hi, lo + 1)
    &&& g[kid.3].transitions().len() == 2
    &&& is_eps_to(g[kid.3].transitions()[0], kid.2)
    &&& is_eps_to(g[kid.3].transitions()[1], lo + 1)
}

/// The layout of `*` (with `allow_empty`) and `+`: the loop layout, the
/// fresh entry `lo` going to the fresh exit `lo + 1` (for `*` only, the skip)
/// and then to the inner entry, and no transition out of the exit.
pub open spec fn star_layout(
    g: Seq<State>,
    lo: int,
    hi: int,
    kid: (int, int, int, int),
    r: Ast,
    allow_empty: bool,
) -> bool {
    &&& loop_layout(g, lo, hi, kid, r)
    &&& allow_empty ==> g[lo].transitions().len() == 2 && is_eps_to(g[lo].transitions()[0], lo + 1)
        && is_eps_to(g[lo].transitions()[1], kid.2)
    &&& !allow_empty ==> g[lo].transitions().len() == 1 && is_eps_to(g[lo].transitions()[0], kid.2)
    &&& g[lo + 1].transitions().len() == 0
}

/// The layout of `?`: a sub-automaton for `r` inside `[lo + 2, hi)`, the
/// fresh entry `lo` going to its entry and, skipping it, to the fresh exit
/// `lo + 1`, and its exit going to the fresh exit only.
pub open spec fn optional_layout(
    g: Seq<State>,
    lo: int,
    hi: int,
    kid: (int, int, int, int),
    r: Ast,
) -> bool {
    &&& 0 <= lo
    &&& lo + 2 <= kid.0
    &&& kid.1 <= hi <= g.len()
    &&& sub_automaton(g, kid.0, kid.1, kid.2, kid.3, |s: Seq<char>| in_lang(r, s))
    &&& region_closed(g, lo, hi, lo + 1)
    &&& g[kid.3].transitions().len() == 1
    &&& is_eps_to(g[kid.3].transitions()[0], lo + 1)
    &&& g[lo].transitions().len() == 2
    &&& is_eps_to(g[lo].transitions()[0], kid.2)
    &&& is_eps_to(g[lo].transitions()[1], lo + 1)
    &&& g[lo + 1].transitions().len() == 0
}

/// The layout of a concatenation of `list`: for each element a sub-automaton
/// with region `[kids[i].0, kids[i].1)`, entry `kids[i].2` and exit
/// `kids[i].3` that reads the element's language, the regions in order, and
/// the exit of each having a single epsilon transition to the entry of the
/// next; the whole runs from the first entry `st` to the last exit `en`.
#[verifier::opaque]
pub open spec fn chain_layout(
    g: Seq<State>,
    kids: Seq<(int, int, int, int)>,
    list: Seq<Ast>,
    st: int,
    en: int,
) -> bool {
    &&& kids.len() == list.len()
    &&& kids.len() >= 1
    &&& kids[0].2 == st
    &&& kids.last().3 == en
    &&& forall|i: int|
        0 <= i < kids.len() ==> sub_automaton(
            g,
            (#[trigger] kids[i]).0,
            kids[i].1,
            kids[i].2,
            kids[i].3,
            |s: Seq<char>| in_lang(list[i], s),
        )
    &&& forall|i: int|
        0 <= i < kids.len() - 1 ==> (#[trigger] kids[i]).1 <= kids[i + 1].0 && g[kids[i].3].transitions().len()
            == 1 && is_eps_to(g[kids[i].3].transitions()[0], kids[i + 1].2)
}

/// A chain stays a chain when the exit of its last piece gets a single
/// epsilon transition to the entry of a new piece placed after it.
pub proof fn lemma_chain_extend(
    g0: Seq<State>,
    g2: Seq<State>,
    kids: Seq<(int, int, int, int)>,
    list: Seq<Ast>,
    st: int,
    en: int,
    hi: int,
    nst: int,
    nen: int,
    r: Ast,
)
    requires
        chain_layout(g0, kids, list, st, en),
        forall|k: int| 0 <= k < kids.len() - 1 ==> (#[trigger] kids[k]).1 <= kids.last().0,
        kids.last().1 <= g0.len(),
        g0.len() <= g2.len(),
        forall|w: int| 0 <= w < g0.len() && w != en ==> #[trigger] g2[w] == g0[w],
        g2[en].transitions().len() == 1,
        is_eps_to(g2[en].transitions()[0], nst),
        sub_automaton(g2, g0.len() as int, hi, nst, nen, |s: Seq<char>| in_lang(r, s)),
    ensures
        chain_layout(g2, kids.push((g0.len() as int, hi, nst, nen)), list.push(r), st, nen),
        forall|k: int|
            0 <= k < kids.len() ==> (#[trigger] kids.push((g0.len() as int, hi, nst, nen))[k]).1
                <= g0.len(),
{
    reveal(chain_layout);
    let mid = g0.len() as int;
    let kids2 = kids.push((mid, hi, nst, nen));
    let list2 = list.push(r);
    let last = kids.last();
    assert(kids[kids.len() - 1] == last);
    assert forall|k: int| 0 <= k < kids2.len() implies sub_automaton(
        g2,
        (#[trigger] kids2[k]).0,
        kids2[k].1,
        kids2[k].2,
        kids2[k].3,
        |s: Seq<char>| in_lang(list2[k], s),
    ) by {
        if k < kids.len() {
            let kid = kids[k];
            assert(kids2[k] == kid);
            assert(list2[k] == list[k]);
            assert(sub_automaton(g0, kid.0, kid.1, kid.2, kid.3, |s: Seq<char>| in_lang(list[k], s)));
            if k < kids.len() - 1 {
                assert(kid.1 <= last.0);
            }
            lemma_fragment_transfer(g0, g2, kid.0, kid.1, kid.2, kid.3, |s: Seq<char>| in_lang(list[k], s));
            lemma_fragment_lang(
                g2,
                kid.0,
                kid.1,
                kid.2,
                kid.3,
                |s: Seq<char>| in_lang(list[k], s),
                |s: Seq<char>| in_lang(list2[k], s),
            );
        } else {
            assert(list2[k] == r);
            lemma_fragment_lang(
                g2,
                mid,
                hi,
                nst,
                nen,
                |s: Seq<char>| in_lang(r, s),
                |s: Seq<char>| in_lang(list2[k], s),
            );
        }
    }
    assert forall|k: int| 0 <= k < kids2.len() - 1 implies (#[trigger] kids2[k]).1 <= kids2[k + 1].0
        && g2[kids2[k].3].transitions().len() == 1 && is_eps_to(g2[kids2[k].3].transitions()[0], kids2[k + 1].2) by {
        if k < kids.len() - 1 {
            assert(kids2[k] == kids[k]);
            assert(kids2[k + 1] == kids[k + 1]);
            assert(kids[k].1 <= last.0);
            assert(g2[kids[k].3] == g0[kids[k].3]);
        } else {
            assert(kids2[k] == last);
        }
    }
    assert forall|k: int| 0 <= k < kids.len() implies (#[trigger] kids2[k]).1 <= mid by {
        assert(kids2[k] == kids[k]);
        if k < kids.len() - 1 {
            assert(kids[k].1 <= last.0);
        }
    }
    assert(kids2[0] == kids[0]);
}

/// A string read from the loop's inner entry to the exit is one or more
/// strings of `r` in a row.
pub proof fn lemma_loop_out(
    g: Seq<State>,
    lo: int,
    hi: int,
    kid: (int, int, int, int),
    r: Ast,
    s: Seq<char>,
    k: nat,
) -> (n: nat)
    requires
        loop_layout(g, lo, hi, kid, r),
        fpath(g, lo, hi, lo + 1, kid.2, s, lo + 1, k),
    ensures
        n >= 1,
        matches_count(r, n, s),
    decreases k,
{
    let e0 = lo + 1;
    let x = lemma_exit(g, lo, hi, e0, kid.0, kid.1, kid.3, kid.2, s, e0, k);
    let head = s.subrange(0, x.0);
    let tail = s.subrange(x.0, s.len() as int);
    assert(reads(g, kid.0, kid.1, kid.2, kid.3, head));
    assert(in_lang(r, head));
    assert(forall|i: int|
        0 <= i < g[kid.3].transitions().len() ==> (#[trigger] g[kid.3].transitions()[i]).kind is Epsilon);
    let m = lemma_eps_out(g, lo, hi, e0, kid.3, tail, e0, x.2);
    if m == 1 {
        lemma_stuck(g, lo, hi, e0, tail, e0, (x.2 - 1) as nat);
        assert(matches_count(r, 0, tail));
        assert(s.subrange(0, x.0) == head);
        1
    } else {
        let n = lemma_loop_out(g, lo, hi, kid, r, tail, (x.2 - 1) as nat);
        assert(s.subrange(0, x.0) == head);
        assert(matches_count(r, n, tail));
        n + 1
    }
}

/// One or more strings of `r` in a row are read from the loop's inner entry
/// to the exit, in `k` steps.
pub proof fn lemma_loop_in(
    g: Seq<State>,
    lo: int,
    hi: int,
    kid: (int, int, int, int),
    r: Ast,
    s: Seq<char>,
    n: nat,
) -> (k: nat)
    requires
        loop_layout(g, lo, hi, kid, r),
        n >= 1,
        matches_count(r, n, s),
    ensures
        fpath(g, lo, hi, lo + 1, kid.2, s, lo + 1, k),
    decreases n,
{
    let e0 = lo + 1;
    let i = choose|i: int|
        0 <= i <= s.len() && in_lang(r, #[trigger] s.subrange(0, i)) && matches_count(
            r,
            (n - 1) as nat,
            s.subrange(i, s.len() as int),
        );
    let head = s.subrange(0, i);
    let tail = s.subrange(i, s.len() as int);
    assert(reads(g, kid.0, kid.1, kid.2, kid.3, head));
    let k1 = choose|k: nat| #[trigger] fpath(g, kid.0, kid.1, kid.3, kid.2, head, kid.3, k);
    assert(agree(g, kid.0, kid.1, kid.3, g, lo, hi, e0));
    lemma_transfer(g, kid.0, kid.1, kid.3, g, lo, hi, e0, kid.2, head, kid.3, k1);
    assert(head + tail =~= s);
    if n == 1 {
        assert(fpath(g, lo, hi, e0, e0, tail, e0, 0));
        lemma_eps_in(g, lo, hi, e0, kid.3, 1, tail, e0, 0);
        lemma_append(g, lo, hi, e0, kid.2, head, kid.3, k1, tail, e0, 1);
        k1 + 1
    } else {
        let k2 = lemma_loop_in(g, lo, hi, kid, r, tail, (n - 1) as nat);
        lemma_eps_in(g, lo, hi, e0, kid.3, 0, tail, e0, k2);
        lemma_append(g, lo, hi, e0, kid.2, head, kid.3, k1, tail, e0, k2 + 1);
        k1 + k2 + 1
    }
}

/// `*` (with `allow_empty`) and `+` (without): the fresh entry goes to the
/// inner entry, and for `*` also straight to the exit.
pub proof fn lemma_star(
    g: Seq<State>,
    lo: int,
    hi: int,
    kid: (int, int, int, int),
    r: Ast,
    allow_empty: bool,
)
    requires
        star_layout(g, lo, hi, kid, r, allow_empty),
    ensures
        sub_automaton(
            g,
            lo,
            hi,
            lo,
            lo + 1,
            |s: Seq<char>| exists|n: nat| (allow_empty || n >= 1) && #[trigger] matches_count(r, n, s),
        ),
{
    let e0 = lo + 1;
    let l = |s: Seq<char>| exists|n: nat| (allow_empty || n >= 1) && #[trigger] matches_count(r, n, s);
    assert forall|i: int| 0 <= i < g[lo].transitions().len() implies (
    #[trigger] g[lo].transitions()[i]).kind is Epsilon by {}
    assert forall|s: Seq<char>| l(s) <==> #[trigger] reads(g, lo, hi, lo, e0, s) by {
        if l(s) {
            let n = choose|n: nat| (allow_empty || n >= 1) && #[trigger] matches_count(r, n, s);
            if n == 0 {
                assert(fpath(g, lo, hi, e0, e0, s, e0, 0));
                lemma_eps_in(g, lo, hi, e0, lo, 0, s, e0, 0);
            } else {
                let k = lemma_loop_in(g, lo, hi, kid, r, s, n);
                let m: int = if allow_empty {
                    1
                } else {
                    0
                };
                lemma_eps_in(g, lo, hi, e0, lo, m, s, e0, k);
            }
        }
        if reads(g, lo, hi, lo, e0, s) {
            let k = choose|k: nat| #[trigger] fpath(g, lo, hi, e0, lo, s, e0, k);
            let m = lemma_eps_out(g, lo, hi, e0, lo, s, e0, k);
            if g[lo].transitions()[m].to_id == e0 {
                lemma_stuck(g, lo, hi, e0, s, e0, (k - 1) as nat);
                assert(matches_count(r, 0, s));
            } else {
                let n = lemma_loop_out(g, lo, hi, kid, r, s, (k - 1) as nat);
            }
        }
    }
}

/// `?`: the fresh entry goes to the inner entry or straight to the exit, and
/// the inner exit goes to the exit.
pub proof fn lemma_optional(g: Seq<State>, lo: int, hi: int, kid: (int, int, int, int), r: Ast)
    requires
        optional_layout(g, lo, hi, kid, r),
    ensures
        sub_automaton(
            g,
            lo,
            hi,
            lo,
            lo + 1,
            |s: Seq<char>| exists|n: nat| n <= 1 && #[trigger] matches_count(r, n, s),
        ),
{
    let e0 = lo + 1;
    let l = |s: Seq<char>| exists|n: nat| n <= 1 && #[trigger] matches_count(r, n, s);
    assert forall|i: int| 0 <= i < g[lo].transitions().len() implies (
    #[trigger] g[lo].transitions()[i]).kind is Epsilon by {}
    assert forall|i: int| 0 <= i < g[kid.3].transitions().len() implies (
    #[trigger] g[kid.3].transitions()[i]).kind is Epsilon by {}
    assert(agree(g, kid.0, kid.1, kid.3, g, lo, hi, e0));
    assert forall|s: Seq<char>| l(s) <==> #[trigger] reads(g, lo, hi, lo, e0, s) by {
        let empty = Seq::<char>::empty();
        if l(s) {
            let n = choose|n: nat| n <= 1 && #[trigger] matches_count(r, n, s);
            if n == 0 {
                assert(fpath(g, lo, hi, e0, e0, s, e0, 0));
                lemma_eps_in(g, lo, hi, e0, lo, 1, s, e0, 0);
            } else {
                let i = choose|i: int|
                    0 <= i <= s.len() && in_lang(r, #[trigger] s.subrange(0, i)) && matches_count(
                        r,
                        0,
                        s.subrange(i, s.len() as int),
                    );
                assert(s.subrange(0, i) =~= s);
                assert(reads(g, kid.0, kid.1, kid.2, kid.3, s));
                let k = choose|k: nat| #[trigger] fpath(g, kid.0, kid.1, kid.3, kid.2, s, kid.3, k);
                lemma_transfer(g, kid.0, kid.1, kid.3, g, lo, hi, e0, kid.2, s, kid.3, k);
                assert(fpath(g, lo, hi, e0, e0, empty, e0, 0));
                lemma_eps_in(g, lo, hi, e0, kid.3, 0, empty, e0, 0);
                lemma_append(g, lo, hi, e0, kid.2, s, kid.3, k, empty, e0, 1);
                assert(s + empty =~= s);
                lemma_eps_in(g, lo, hi, e0, lo, 0, s, e0, k + 1);
            }
        }
        if reads(g, lo, hi, lo, e0, s) {
            let k = choose|k: nat| #[trigger] fpath(g, lo, hi, e0, lo, s, e0, k);
            let m = lemma_eps_out(g, lo, hi, e0, lo, s, e0, k);
            if m == 1 {
                lemma_stuck(g, lo, hi, e0, s, e0, (k - 1) as nat);
                assert(matches_count(r, 0, s));
            } else {
                let x = lemma_exit(
                    g,
                    lo,
                    hi,
                    e0,
                    kid.0,
                    kid.1,
                    kid.3,
                    kid.2,
                    s,
                    e0,
                    (k - 1) as nat,
                );
                let tail = s.subrange(x.0, s.len() as int);
                let m2 = lemma_eps_out(g, lo, hi, e0, kid.3, tail, e0, x.2);
                lemma_stuck(g, lo, hi, e0, tail, e0, (x.2 - 1) as nat);
                assert(reads(g, kid.0, kid.1, kid.2, kid.3, s.subrange(0, x.0)));
                assert(matches_count(r, 0, tail));
                assert(matches_count(r, 1, s));
            }
        }
    }
}

/// When a sub-automaton spans the whole arena and its exit, which has no
/// transitions, is the only accepting state, the automaton accepts exactly
/// the sub-automaton's language.
pub proof fn lemma_whole(g: Seq<State>, st: int, en: int, l: spec_fn(Seq<char>) -> bool)
    requires
        sub_automaton(g, 0, g.len() as int, st, en, l),
        g[en].transitions().len() == 0,
        forall|u: int| 0 <= u < g.len() ==> (#[trigger] g[u].is_accept() <==> u == en),
    ensures
        forall|s: Seq<char>| l(s) <==> #[trigger] accepts(g, st, s),
{
    let n = g.len() as int;
    assert forall|s: Seq<char>| l(s) <==> #[trigger] accepts(g, st, s) by {
        if l(s) {
            assert(reads(g, 0, n, st, en, s));
            let k = choose|k: nat| #[trigger] fpath(g, 0, n, en, st, s, en, k);
            assert(agree(g, 0, n, en, g, 0, n, -1));
            lemma_transfer(g, 0, n, en, g, 0, n, -1, st, s, en, k);
            assert(path(g, st, s, en));
            assert(g[en].is_accept());
        }
        if accepts(g, st, s) {
            let v = choose|v: int| 0 <= v < g.len() && #[trigger] g[v].is_accept() && path(g, st, s, v);
            assert(v == en);
            let k = choose|k: nat| #[trigger] fpath(g, 0, n, -1, st, s, v, k);
            lemma_exclude_dead(g, en, st, s, en, k);
            assert(reads(g, 0, n, st, en, s));
        }
    }
}

} // verus!
