use vstd::prelude::*;

use crate::nfa::{State, TransitionKind};

verus! {

/// What is left of `s` after following a transition labelled `kind`, or
/// `None` when the transition cannot be taken on `s`.
pub open spec fn rest(kind: TransitionKind, s: Seq<char>) -> Option<Seq<char>> {
    match kind {
        TransitionKind::Epsilon => Some(s),
        TransitionKind::Literal(c) => if s.len() > 0 && s[0] == c {
            Some(s.drop_first())
        } else {
            None
        },
    }
}

/// `u` may be left within the region `[lo, hi)` that excludes `ex`.
pub open spec fn inside(lo: int, hi: int, ex: int, u: int) -> bool {
    lo <= u < hi && u != ex
}

/// A walk of exactly `k` transitions from `u` to `v` that reads `s`, in which
/// every state that is left lies inside `[lo, hi)` and is not `ex`.
pub open spec fn fpath(
    g: Seq<State>,
    lo: int,
    hi: int,
    ex: int,
    u: int,
    s: Seq<char>,
    v: int,
    k: nat,
) -> bool
    decreases k,
{
    if k == 0 {
        u == v && s.len() == 0
    } else {
        inside(lo, hi, ex, u) && 0 <= u < g.len() && exists|i: int|
            0 <= i < g[u].transitions().len() && #[trigger] rest(
                g[u].transitions()[i].kind,
                s,
            ) is Some && fpath(
                g,
                lo,
                hi,
                ex,
                g[u].transitions()[i].to_id as int,
                rest(g[u].transitions()[i].kind, s)->0,
                v,
                (k - 1) as nat,
            )
    }
}

/// A walk from `u` to `v` reading `s`, over the whole automaton.
pub open spec fn path(g: Seq<State>, u: int, s: Seq<char>, v: int) -> bool {
    exists|k: nat| #[trigger] fpath(g, 0, g.len() as int, -1, u, s, v, k)
}

/// Some walk from `start` that reads `s` ends in an accepting state.
pub open spec fn accepts(g: Seq<State>, start: int, s: Seq<char>) -> bool {
    exists|v: int| 0 <= v < g.len() && #[trigger] g[v].is_accept() && path(g, start, s, v)
}

/// Every transition leads to a state that exists.
pub open spec fn targets_valid(g: Seq<State>) -> bool {
    forall|w: int, i: int|
        0 <= w < g.len() && 0 <= i < g[w].transitions().len() ==> (#[trigger] g[w].transitions()[i]).to_id
            < g.len()
}

/// Every state of `[lo, hi)` other than `en` has its transitions inside `[lo, hi)`.
pub open spec fn region_closed(g: Seq<State>, lo: int, hi: int, en: int) -> bool {
    forall|w: int, i: int|
        inside(lo, hi, en, w) && 0 <= i < g[w].transitions().len() ==> lo <= (
        #[trigger] g[w].transitions()[i]).to_id < hi
}

/// Every state that may be left in the first region may be left in the second
/// one, with the same transitions.
pub open spec fn agree(
    g1: Seq<State>,
    lo1: int,
    hi1: int,
    ex1: int,
    g2: Seq<State>,
    lo2: int,
    hi2: int,
    ex2: int,
) -> bool {
    forall|w: int|
        inside(lo1, hi1, ex1, w) && 0 <= w < g1.len() ==> inside(lo2, hi2, ex2, w) && 0 <= w
            < g2.len() && #[trigger] g2[w].transitions() == g1[w].transitions()
}

/// A walk survives a change of automaton and of region as long as the states
/// it may leave keep their transitions and stay allowed.
pub proof fn lemma_transfer(
    g1: Seq<State>,
    lo1: int,
    hi1: int,
    ex1: int,
    g2: Seq<State>,
    lo2: int,
    hi2: int,
    ex2: int,
    u: int,
    s: Seq<char>,
    v: int,
    k: nat,
)
    requires
        fpath(g1, lo1, hi1, ex1, u, s, v, k),
        agree(g1, lo1, hi1, ex1, g2, lo2, hi2, ex2),
    ensures
        fpath(g2, lo2, hi2, ex2, u, s, v, k),
    decreases k,
{
    if k > 0 {
        let ts = g1[u].transitions();
        let i = choose|i: int|
            0 <= i < ts.len() && #[trigger] rest(ts[i].kind, s) is Some && fpath(
                g1,
                lo1,
                hi1,
                ex1,
                ts[i].to_id as int,
                rest(ts[i].kind, s)->0,
                v,
                (k - 1) as nat,
            );
        lemma_transfer(
            g1,
            lo1,
            hi1,
            ex1,
            g2,
            lo2,
            hi2,
            ex2,
            ts[i].to_id as int,
            rest(ts[i].kind, s)->0,
            v,
            (k - 1) as nat,
        );
        assert(g2[u].transitions() == ts);
    }
}

/// Two walks that meet make one walk.
pub proof fn lemma_append(
    g: Seq<State>,
    lo: int,
    hi: int,
    ex: int,
    u: int,
    s1: Seq<char>,
    w: int,
    k1: nat,
    s2: Seq<char>,
    v: int,
    k2: nat,
)
    requires
        fpath(g, lo, hi, ex, u, s1, w, k1),
        fpath(g, lo, hi, ex, w, s2, v, k2),
    ensures
        fpath(g, lo, hi, ex, u, s1 + s2, v, k1 + k2),
    decreases k1,
{
    if k1 == 0 {
        assert(s1 + s2 =~= s2);
    } else {
        let ts = g[u].transitions();
        let i = choose|i: int|
            0 <= i < ts.len() && #[trigger] rest(ts[i].kind, s1) is Some && fpath(
                g,
                lo,
                hi,
                ex,
                ts[i].to_id as int,
                rest(ts[i].kind, s1)->0,
                w,
                (k1 - 1) as nat,
            );
        let r1 = rest(ts[i].kind, s1)->0;
        lemma_append(g, lo, hi, ex, ts[i].to_id as int, r1, w, (k1 - 1) as nat, s2, v, k2);
        match ts[i].kind {
            TransitionKind::Epsilon => {},
            TransitionKind::Literal(c) => {
                assert((s1 + s2).drop_first() =~= r1 + s2);
            },
        }
        assert(rest(ts[i].kind, s1 + s2) == Some(r1 + s2));
        assert((k1 + k2 - 1) as nat == (k1 - 1) as nat + k2);
    }
}

/// A walk that starts inside a closed sub-region and ends outside it leaves
/// the sub-region through its exit `en2`: it splits at position `r.0` of `s`
/// into a walk of `r.1` steps within the sub-region and one of `r.2` steps
/// from `en2`.
pub proof fn lemma_exit(
    g: Seq<State>,
    lo: int,
    hi: int,
    ex: int,
    lo2: int,
    hi2: int,
    en2: int,
    u: int,
    s: Seq<char>,
    v: int,
    k: nat,
) -> (r: (int, nat, nat))
    requires
        fpath(g, lo, hi, ex, u, s, v, k),
        forall|w: int| inside(lo2, hi2, en2, w) ==> #[trigger] inside(lo, hi, ex, w),
        region_closed(g, lo2, hi2, en2),
        inside(lo2, hi2, en2, u),
        !inside(lo2, hi2, en2, v),
    ensures
        0 <= r.0 <= s.len(),
        r.1 >= 1,
        r.1 + r.2 == k,
        fpath(g, lo2, hi2, en2, u, s.subrange(0, r.0), en2, r.1),
        fpath(g, lo, hi, ex, en2, s.subrange(r.0, s.len() as int), v, r.2),
    decreases k,
{
    let ts = g[u].transitions();
    let i = choose|i: int|
        0 <= i < ts.len() && #[trigger] rest(ts[i].kind, s) is Some && fpath(
            g,
            lo,
            hi,
            ex,
            ts[i].to_id as int,
            rest(ts[i].kind, s)->0,
            v,
            (k - 1) as nat,
        );
    let t = ts[i];
    let w = t.to_id as int;
    let rs = rest(t.kind, s)->0;
    let used: int = if t.kind is Epsilon {
        0
    } else {
        1
    };
    assert(rs =~= s.subrange(used, s.len() as int));
    assert(lo2 <= w < hi2);
    if w == en2 {
        let pre = s.subrange(0, used);
        assert(rest(t.kind, pre) == Some(Seq::<char>::empty())) by {
            if used == 1 {
                assert(pre.drop_first() =~= Seq::<char>::empty());
            } else {
                assert(pre =~= Seq::<char>::empty());
            }
        }
        assert(fpath(g, lo2, hi2, en2, w, Seq::<char>::empty(), en2, 0));
        assert(fpath(g, lo2, hi2, en2, u, pre, en2, 1));
        (used, 1, (k - 1) as nat)
    } else {
        let r2 = lemma_exit(g, lo, hi, ex, lo2, hi2, en2, w, rs, v, (k - 1) as nat);
        let j = r2.0 + used;
        let pre = s.subrange(0, j);
        assert(rest(t.kind, pre) == Some(rs.subrange(0, r2.0))) by {
            if used == 1 {
                assert(pre.drop_first() =~= rs.subrange(0, r2.0));
            } else {
                assert(pre =~= rs.subrange(0, r2.0));
            }
        }
        assert(rs.subrange(r2.0, rs.len() as int) =~= s.subrange(j, s.len() as int));
        assert(fpath(g, lo2, hi2, en2, u, pre, en2, r2.1 + 1));
        (j, r2.1 + 1, r2.2)
    }
}

/// Excluding a state that has no transitions removes no walk.
pub proof fn lemma_exclude_dead(g: Seq<State>, ex: int, u: int, s: Seq<char>, v: int, k: nat)
    requires
        fpath(g, 0, g.len() as int, -1, u, s, v, k),
        0 <= ex < g.len(),
        g[ex].transitions().len() == 0,
    ensures
        fpath(g, 0, g.len() as int, ex, u, s, v, k),
    decreases k,
{
    if k > 0 {
        let ts = g[u].transitions();
        let i = choose|i: int|
            0 <= i < ts.len() && #[trigger] rest(ts[i].kind, s) is Some && fpath(
                g,
                0,
                g.len() as int,
                -1,
                ts[i].to_id as int,
                rest(ts[i].kind, s)->0,
                v,
                (k - 1) as nat,
            );
        lemma_exclude_dead(g, ex, ts[i].to_id as int, rest(ts[i].kind, s)->0, v, (k - 1) as nat);
    }
}

} // verus!
