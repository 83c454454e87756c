use vstd::prelude::*;

use crate::dfa::subset::{
    eclose, has_accept, id_set, lemma_eclose_idempotent, lemma_reach_push, lemma_simulates_accepts,
    reach, simulates, state_simulates, step, subset_construction, subset_of, transitions_follow,
};
use crate::dfa::count::{bits_value, lemma_bits_value_positive, lemma_distinct_bits_bound};
use crate::dfa::{StateID, DFA};
use vstd::arithmetic::power2::pow2;
use crate::error::Error;
use crate::nfa::paths::{accepts, fpath, lemma_append, path, rest, targets_valid};
use crate::nfa::{self, TransitionKind, NFA};

verus! {

/// The number of `false` entries of `bits`.
pub open spec fn count_false(bits: Seq<bool>) -> nat
    decreases bits.len(),
{
    if bits.len() == 0 {
        0
    } else {
        count_false(bits.drop_last()) + if bits.last() {
            0nat
        } else {
            1nat
        }
    }
}

/// Setting a `false` entry to `true` lowers the count by one.
proof fn lemma_count_false_set(bits: Seq<bool>, i: int)
    requires
        0 <= i < bits.len(),
        !bits[i],
    ensures
        count_false(bits.update(i, true)) + 1 == count_false(bits),
    decreases bits.len(),
{
    let up = bits.update(i, true);
    if i == bits.len() - 1 {
        assert(up.drop_last() =~= bits.drop_last());
    } else {
        assert(up.drop_last() =~= bits.drop_last().update(i, true));
        lemma_count_false_set(bits.drop_last(), i);
    }
}

/// An epsilon transition out of the closure of `set` stays in it.
proof fn lemma_eclose_eps_step(g: Seq<nfa::State>, set: Set<int>, v: int, i: int)
    requires
        eclose(g, set).contains(v),
        0 <= v < g.len(),
        0 <= i < g[v].transitions().len(),
        g[v].transitions()[i].kind is Epsilon,
    ensures
        eclose(g, set).contains(g[v].transitions()[i].to_id as int),
{
    let n = g.len() as int;
    let e = Seq::<char>::empty();
    let w = g[v].transitions()[i].to_id as int;
    let u = choose|u: int| set.contains(u) && #[trigger] path(g, u, e, v);
    let k = choose|k: nat| #[trigger] fpath(g, 0, n, -1, u, e, v, k);
    assert(fpath(g, 0, n, -1, w, e, w, 0));
    assert(rest(g[v].transitions()[i].kind, e) == Some(e));
    assert(fpath(g, 0, n, -1, v, e, w, 1));
    lemma_append(g, 0, n, -1, u, e, v, k, e, w, 1);
    assert(e + e =~= e);
    assert(path(g, u, e, w));
}

/// A set that holds `u` and the targets of the epsilon transitions of its
/// states holds every state reachable from `u` without reading.
proof fn lemma_eps_closed_contains(g: Seq<nfa::State>, c: Set<int>, u: int, v: int, k: nat)
    requires
        c.contains(u),
        forall|x: int, i: int|
            c.contains(x) && 0 <= x < g.len() && 0 <= i < g[x].transitions().len()
                && g[x].transitions()[i].kind is Epsilon ==> c.contains(
                (#[trigger] g[x].transitions()[i]).to_id as int,
            ),
        fpath(g, 0, g.len() as int, -1, u, Seq::empty(), v, k),
    ensures
        c.contains(v),
    decreases k,
{
    if k > 0 {
        let e = Seq::<char>::empty();
        let ts = g[u].transitions();
        let i = choose|i: int|
            0 <= i < ts.len() && #[trigger] rest(ts[i].kind, e) is Some && fpath(
                g,
                0,
                g.len() as int,
                -1,
                ts[i].to_id as int,
                rest(ts[i].kind, e)->0,
                v,
                (k - 1) as nat,
            );
        assert(ts[i].kind is Epsilon);
        lemma_eps_closed_contains(g, c, ts[i].to_id as int, v, (k - 1) as nat);
    }
}

/// Some processed transition reads `c` and leads to `w`: a transition of
/// `ids[p]` at index `i`, with `p` before `a`, or `p` equal to `a` and `i`
/// before `b`.
pub open spec fn read_before(g: Seq<nfa::State>, ids: Seq<usize>, a: int, b: int, c: char, w: int) -> bool {
    exists|p: int, i: int|
        0 <= p < ids.len() && (p < a || (p == a && i < b)) && 0 <= i < g[ids[p] as int].transitions().len()
            && #[trigger] g[ids[p] as int].transitions()[i].to_id == w && g[ids[p] as int].transitions()[i].kind
            == TransitionKind::Literal(c)
}

/// Taking one more transition of `ids[a]` into account adds exactly its
/// target when it reads `c`.
proof fn lemma_read_next(g: Seq<nfa::State>, ids: Seq<usize>, a: int, b: int, c: char, w: int)
    requires
        0 <= a < ids.len(),
        0 <= b < g[ids[a] as int].transitions().len(),
    ensures
        read_before(g, ids, a, b + 1, c, w) == (read_before(g, ids, a, b, c, w) || (
        g[ids[a] as int].transitions()[b].to_id == w && g[ids[a] as int].transitions()[b].kind
            == TransitionKind::Literal(c))),
{
    if g[ids[a] as int].transitions()[b].to_id == w && g[ids[a] as int].transitions()[b].kind
        == TransitionKind::Literal(c) {
        assert(read_before(g, ids, a, b + 1, c, w));
    }
    if read_before(g, ids, a, b + 1, c, w) {
        let (p, i) = choose|p: int, i: int|
            0 <= p < ids.len() && (p < a || (p == a && i < b + 1)) && 0 <= i < g[ids[p] as int].transitions().len()
                && #[trigger] g[ids[p] as int].transitions()[i].to_id == w && g[ids[p] as int].transitions()[i].kind
                == TransitionKind::Literal(c);
        if p < a || i < b {
            assert(read_before(g, ids, a, b, c, w));
        }
    }
}

/// Having taken every transition of `ids[a]` is the same as starting on
/// `ids[a + 1]`.
proof fn lemma_read_row_end(g: Seq<nfa::State>, ids: Seq<usize>, a: int, c: char, w: int)
    requires
        0 <= a < ids.len(),
    ensures
        read_before(g, ids, a, g[ids[a] as int].transitions().len() as int, c, w) == read_before(g, ids, a + 1, 0, c, w),
{
    let len = g[ids[a] as int].transitions().len() as int;
    if read_before(g, ids, a, len, c, w) {
        let (p, i) = choose|p: int, i: int|
            0 <= p < ids.len() && (p < a || (p == a && i < len)) && 0 <= i < g[ids[p] as int].transitions().len()
                && #[trigger] g[ids[p] as int].transitions()[i].to_id == w && g[ids[p] as int].transitions()[i].kind
                == TransitionKind::Literal(c);
        assert(read_before(g, ids, a + 1, 0, c, w));
    }
    if read_before(g, ids, a + 1, 0, c, w) {
        let (p, i) = choose|p: int, i: int|
            0 <= p < ids.len() && (p < a + 1 || (p == a + 1 && i < 0)) && 0 <= i < g[ids[p] as int].transitions().len()
                && #[trigger] g[ids[p] as int].transitions()[i].to_id == w && g[ids[p] as int].transitions()[i].kind
                == TransitionKind::Literal(c);
        assert(read_before(g, ids, a, len, c, w));
    }
}

/// Once every state of `ids` is done, the targets read are the step of the
/// subset of `ids`.
proof fn lemma_read_all(g: Seq<nfa::State>, ids: Seq<usize>, c: char, w: int)
    requires
        forall|j: int| 0 <= j < ids.len() ==> #[trigger] ids[j] < g.len(),
    ensures
        read_before(g, ids, ids.len() as int, 0, c, w) == step(g, id_set(ids), c).contains(w),
{
    if read_before(g, ids, ids.len() as int, 0, c, w) {
        let (p, i) = choose|p: int, i: int|
            0 <= p < ids.len() && (p < ids.len() || (p == ids.len() && i < 0)) && 0 <= i < g[ids[p] as int].transitions().len()
                && #[trigger] g[ids[p] as int].transitions()[i].to_id == w && g[ids[p] as int].transitions()[i].kind
                == TransitionKind::Literal(c);
        assert(id_set(ids).contains(ids[p] as int));
        assert(step(g, id_set(ids), c).contains(w));
    }
    if step(g, id_set(ids), c).contains(w) {
        let (u, i) = choose|u: int, i: int|
            id_set(ids).contains(u) && 0 <= u < g.len() && 0 <= i < g[u].transitions().len()
                && #[trigger] g[u].transitions()[i].to_id == w && g[u].transitions()[i].kind
                == TransitionKind::Literal(c);
        let p = choose|p: int| 0 <= p < ids.len() && #[trigger] ids[p] == u;
        assert(g[ids[p] as int].transitions()[i].to_id == w);
        assert(read_before(g, ids, ids.len() as int, 0, c, w));
    }
}

/// The positions of `bits` that hold `true`, in increasing order.
fn ids_of(bits: &Vec<bool>) -> (r: Vec<nfa::StateID>)
    ensures
        forall|w: int| #[trigger] id_set(r@).contains(w) <==> 0 <= w < bits@.len() && bits@[w],
        r@.no_duplicates(),
        forall|q: int| 0 <= q < r@.len() ==> #[trigger] r@[q] < bits@.len(),
        forall|p: int, q: int| 0 <= p < q < r@.len() ==> r@[p] < r@[q],
{
    let mut ids: Vec<nfa::StateID> = Vec::new();
    let mut i: usize = 0;
    while i < bits.len()
        invariant
            i <= bits@.len(),
            forall|w: int| #[trigger] id_set(ids@).contains(w) <==> 0 <= w < i && bits@[w],
            forall|q: int| 0 <= q < ids@.len() ==> #[trigger] ids@[q] < i,
            forall|p: int, q: int| 0 <= p < q < ids@.len() ==> ids@[p] < ids@[q],
        decreases bits@.len() - i,
    {
        let ghost prev = ids@;
        if bits[i] {
            ids.push(i);
        }
        proof {
            assert forall|w: int| #[trigger] id_set(ids@).contains(w) <==> 0 <= w < i + 1 && bits@[w] by {
                if id_set(prev).contains(w) {
                    let q = choose|q: int| 0 <= q < prev.len() && #[trigger] prev[q] == w;
                    assert(ids@[q] == w);
                }
                if w == i && bits@[w] {
                    assert(ids@[ids@.len() - 1] == w);
                }
                if id_set(ids@).contains(w) {
                    let q = choose|q: int| 0 <= q < ids@.len() && #[trigger] ids@[q] == w;
                    if q < prev.len() {
                        assert(prev[q] == w);
                    }
                }
            }
        }
        i = i + 1;
    }
    ids
}

/// The two bit vectors are equal.
fn same_bits(a: &Vec<bool>, b: &Vec<bool>) -> (r: bool)
    ensures
        r == (a@ == b@),
{
    if a.len() != b.len() {
        return false;
    }
    let mut i: usize = 0;
    while i < a.len()
        invariant
            a@.len() == b@.len(),
            i <= a@.len(),
            forall|k: int| 0 <= k < i ==> a@[k] == b@[k],
        decreases a@.len() - i,
    {
        if a[i] != b[i] {
            return false;
        }
        i = i + 1;
    }
    proof {
        assert(a@ =~= b@);
    }
    true
}

/// The position of `key` in `keys`, if it is there.
fn find_subset(keys: &Vec<Vec<bool>>, key: &Vec<bool>) -> (r: Option<usize>)
    ensures
        r matches Some(j) ==> j < keys@.len() && keys@[j as int]@ == key@,
        r is None ==> forall|j: int| 0 <= j < keys@.len() ==> (#[trigger] keys@[j])@ != key@,
{
    let mut j: usize = 0;
    while j < keys.len()
        invariant
            j <= keys@.len(),
            forall|k: int| 0 <= k < j ==> (#[trigger] keys@[k])@ != key@,
        decreases keys@.len() - j,
    {
        if same_bits(&keys[j], key) {
            return Some(j);
        }
        j = j + 1;
    }
    None
}

/// A DFA state whose transitions follow keeps following when states are
/// added and other states' transitions change.
proof fn lemma_follow_kept(d1: DFA, d2: DFA, g: Seq<nfa::State>, i: int)
    requires
        transitions_follow(d1, g, i),
        0 <= i < d1.spec_states().len() <= d2.spec_states().len(),
        forall|j: int| 0 <= j < d1.spec_states().len() ==> #[trigger] d2.spec_states()[j] == d1.spec_states()[j],
        forall|c: char| #[trigger] d2.spec_next(i, c) == d1.spec_next(i, c),
    ensures
        transitions_follow(d2, g, i),
{
    assert forall|c: char| match #[trigger] d2.spec_next(i, c) {
        None => step(g, subset_of(d2, i), c) == Set::<int>::empty(),
        Some(j) => j < d2.spec_states().len() && subset_of(d2, j as int) == eclose(
            g,
            step(g, subset_of(d2, i), c),
        ),
    } by {
        assert(subset_of(d2, i) == subset_of(d1, i));
        match d1.spec_next(i, c) {
            Some(j) => {
                assert(subset_of(d2, j as int) == subset_of(d1, j as int));
            },
            None => {},
        }
    }
}

/// The states of `d` and their keys as the subset construction keeps them:
/// state 0 stands for the closure of `st`, ids are positions, each key holds
/// the membership bits of its state's subset, and each subset is closed,
/// decides acceptance, is non-empty, is reached from `st` by some string and
/// belongs to one state only.
#[verifier::opaque]
spec fn table_ok(d: DFA, keys: Seq<Vec<bool>>, g: Seq<nfa::State>, st: int) -> bool {
    let m = d.spec_states().len();
    let n = g.len();
    &&& m >= 1
    &&& subset_of(d, 0) == eclose(g, set![st])
    &&& d.ids_match()
    &&& keys.len() == m
    &&& forall|i: int| 0 <= i < m ==> (#[trigger] keys[i])@.len() == n
    &&& forall|i: int, w: int|
        0 <= i < m && 0 <= w < n ==> (#[trigger] keys[i]@[w] <==> subset_of(d, i).contains(w))
    &&& forall|i: int, j: int|
        0 <= i < m && 0 <= j < d.spec_states()[i].nfa_states@.len() ==> #[trigger] d.spec_states()[i].nfa_states@[j]
            < n
    &&& forall|i: int| 0 <= i < m ==> (#[trigger] d.spec_states()[i]).nfa_states@.no_duplicates()
    &&& forall|i: int|
        0 <= i < m ==> eclose(g, #[trigger] subset_of(d, i)) == subset_of(d, i) && d.spec_states()[i].is_match
            == has_accept(g, subset_of(d, i))
    &&& forall|i: int, j: int| 0 <= i < m && 0 <= j < m && i != j ==> subset_of(d, i) != subset_of(d, j)
    &&& forall|i: int|
        0 <= i < m ==> #[trigger] subset_of(d, i) != Set::<int>::empty() && exists|w: Seq<char>|
            subset_of(d, i) == reach(g, set![st], w)
}

/// The facts the table keeps about state `i`.
proof fn lemma_table_state(d: DFA, keys: Seq<Vec<bool>>, g: Seq<nfa::State>, st: int, i: int)
    requires
        table_ok(d, keys, g, st),
        0 <= i < d.spec_states().len(),
    ensures
        forall|j: int| 0 <= j < d.spec_states()[i].nfa_states@.len() ==> #[trigger] d.spec_states()[i].nfa_states@[j] < g.len(),
        eclose(g, subset_of(d, i)) == subset_of(d, i),
        exists|w: Seq<char>| subset_of(d, i) == reach(g, set![st], w),
        keys.len() == d.spec_states().len(),
{
    reveal(table_ok);
    assert(subset_of(d, i) != Set::<int>::empty());
}

/// A key found in the table names a state with the same subset.
proof fn lemma_table_found(
    d: DFA,
    keys: Seq<Vec<bool>>,
    g: Seq<nfa::State>,
    st: int,
    j: int,
    key: Seq<bool>,
    ids: Seq<usize>,
)
    requires
        table_ok(d, keys, g, st),
        0 <= j < keys.len(),
        keys[j]@ == key,
        key.len() == g.len(),
        forall|w: int| 0 <= w < key.len() ==> (#[trigger] key[w] <==> id_set(ids).contains(w)),
        forall|q: int| 0 <= q < ids.len() ==> #[trigger] ids[q] < g.len(),
    ensures
        0 <= j < d.spec_states().len(),
        subset_of(d, j) == id_set(ids),
{
    reveal(table_ok);
    assert forall|w: int| #[trigger] subset_of(d, j).contains(w) implies id_set(ids).contains(w) by {
        let q = choose|q: int| 0 <= q < d.spec_states()[j].nfa_states@.len() && #[trigger] d.spec_states()[j].nfa_states@[q] == w;
        assert(keys[j]@[w]);
    }
    assert forall|w: int| #[trigger] id_set(ids).contains(w) implies subset_of(d, j).contains(w) by {
        let q = choose|q: int| 0 <= q < ids.len() && #[trigger] ids[q] == w;
        assert(key[w]);
    }
    assert(subset_of(d, j) =~= id_set(ids));
}

/// The table depends on the states only, not on the transitions.
proof fn lemma_table_same_states(d1: DFA, d2: DFA, keys: Seq<Vec<bool>>, g: Seq<nfa::State>, st: int)
    requires
        table_ok(d1, keys, g, st),
        d2.spec_states() == d1.spec_states(),
    ensures
        table_ok(d2, keys, g, st),
{
    reveal(table_ok);
    assert forall|i: int| #[trigger] subset_of(d2, i) == subset_of(d1, i) by {}
}

/// Adding a state for a new, closed, reachable and non-empty subset, with its
/// key, keeps the table.
proof fn lemma_table_add(
    d0: DFA,
    d1: DFA,
    keys: Seq<Vec<bool>>,
    key: Vec<bool>,
    g: Seq<nfa::State>,
    st: int,
    ids: Seq<usize>,
)
    requires
        table_ok(d0, keys, g, st),
        d1.spec_states().len() == d0.spec_states().len() + 1,
        forall|j: int| 0 <= j < d0.spec_states().len() ==> #[trigger] d1.spec_states()[j] == d0.spec_states()[j],
        d1.spec_states().last().id == d0.spec_states().len(),
        d1.spec_states().last().nfa_states@ == ids,
        ids.no_duplicates(),
        d1.spec_states().last().is_match == has_accept(g, id_set(ids)),
        key@.len() == g.len(),
        forall|w: int| 0 <= w < key@.len() ==> (#[trigger] key@[w] <==> id_set(ids).contains(w)),
        forall|q: int| 0 <= q < ids.len() ==> #[trigger] ids[q] < g.len(),
        forall|j: int| 0 <= j < keys.len() ==> (#[trigger] keys[j])@ != key@,
        eclose(g, id_set(ids)) == id_set(ids),
        id_set(ids) != Set::<int>::empty(),
        exists|w: Seq<char>| id_set(ids) == reach(g, set![st], w),
    ensures
        table_ok(d1, keys.push(key), g, st),
{
    reveal(table_ok);
    let m0 = d0.spec_states().len() as int;
    let n = g.len() as int;
    let keys1 = keys.push(key);
    assert forall|j: int| 0 <= j < m0 implies #[trigger] subset_of(d1, j) == subset_of(d0, j) by {
        assert(d1.spec_states()[j] == d0.spec_states()[j]);
    }
    assert(subset_of(d1, m0) == id_set(ids));
    assert forall|j: int| 0 <= j < m0 implies subset_of(d0, j) != id_set(ids) by {
        if subset_of(d0, j) == id_set(ids) {
            assert(keys[j]@ =~= key@) by {
                assert forall|w: int| 0 <= w < n implies keys[j]@[w] == key@[w] by {}
            }
        }
    }
    assert forall|i: int, j: int| 0 <= i < m0 + 1 && 0 <= j < m0 + 1 && i != j implies subset_of(d1, i) != subset_of(d1, j) by {
        if i < m0 && j < m0 {
            assert(subset_of(d1, i) == subset_of(d0, i));
            assert(subset_of(d1, j) == subset_of(d0, j));
        } else if i < m0 {
            assert(subset_of(d1, i) == subset_of(d0, i));
        } else {
            assert(subset_of(d1, j) == subset_of(d0, j));
        }
    }
    assert forall|i: int| 0 <= i < m0 + 1 implies (#[trigger] keys1[i])@.len() == n by {}
    assert forall|i: int, w: int| 0 <= i < m0 + 1 && 0 <= w < n implies (#[trigger] keys1[i]@[w] <==> subset_of(d1, i).contains(w)) by {
        if i < m0 {
            assert(subset_of(d1, i) == subset_of(d0, i));
        }
    }
    assert forall|i: int, j: int|
        0 <= i < m0 + 1 && 0 <= j < d1.spec_states()[i].nfa_states@.len() implies #[trigger] d1.spec_states()[i].nfa_states@[j] < n by {
        if i < m0 {
            assert(d1.spec_states()[i] == d0.spec_states()[i]);
        }
    }
    assert forall|i: int| 0 <= i < m0 + 1 implies eclose(g, #[trigger] subset_of(d1, i)) == subset_of(d1, i)
        && d1.spec_states()[i].is_match == has_accept(g, subset_of(d1, i)) by {
        if i < m0 {
            assert(d1.spec_states()[i] == d0.spec_states()[i]);
            assert(subset_of(d1, i) == subset_of(d0, i));
        }
    }
    assert forall|i: int| 0 <= i < m0 + 1 implies #[trigger] subset_of(d1, i) != Set::<int>::empty()
        && exists|w: Seq<char>| subset_of(d1, i) == reach(g, set![st], w) by {
        if i < m0 {
            assert(subset_of(d1, i) == subset_of(d0, i));
        }
    }
    assert(d1.ids_match()) by {
        assert forall|i: int| 0 <= i < m0 + 1 implies #[trigger] d1.spec_states()[i].id == i by {
            if i < m0 {
                assert(d1.spec_states()[i] == d0.spec_states()[i]);
            }
        }
    }
    assert(subset_of(d1, 0) == subset_of(d0, 0));
    assert forall|i: int| 0 <= i < m0 + 1 implies (#[trigger] d1.spec_states()[i]).nfa_states@.no_duplicates() by {
        if i < m0 {
            assert(d1.spec_states()[i] == d0.spec_states()[i]);
        }
    }
}

/// No two states share a subset and none is empty, so the keys are distinct
/// bit vectors with a set bit: there are at most `2^n - 1` states.
proof fn lemma_table_bound(d: DFA, keys: Seq<Vec<bool>>, g: Seq<nfa::State>, st: int)
    requires
        table_ok(d, keys, g, st),
    ensures
        d.spec_states().len() <= pow2(g.len()) - 1,
{
    reveal(table_ok);
    let n = g.len();
    let bits = keys.map_values(|k: Vec<bool>| k@);
    assert forall|i: int| 0 <= i < bits.len() implies (#[trigger] bits[i]).len() == n by {}
    assert forall|i: int, j: int| 0 <= i < j < bits.len() implies bits[i] != bits[j] by {
        if bits[i] == bits[j] {
            assert(subset_of(d, i) =~= subset_of(d, j)) by {
                assert forall|w: int| #[trigger] subset_of(d, i).contains(w) implies subset_of(d, j).contains(w) by {
                    let q = choose|q: int| 0 <= q < d.spec_states()[i].nfa_states@.len() && #[trigger] d.spec_states()[i].nfa_states@[q] == w;
                    assert(keys[i]@[w]);
                }
                assert forall|w: int| #[trigger] subset_of(d, j).contains(w) implies subset_of(d, i).contains(w) by {
                    let q = choose|q: int| 0 <= q < d.spec_states()[j].nfa_states@.len() && #[trigger] d.spec_states()[j].nfa_states@[q] == w;
                    assert(keys[j]@[w]);
                }
            }
        }
    }
    assert forall|i: int| 0 <= i < bits.len() implies bits_value(#[trigger] bits[i]) > 0 by {
        assert(subset_of(d, i) != Set::<int>::empty());
        let w = choose|w: int| subset_of(d, i).contains(w);
        assert(subset_of(d, i).contains(w)) by {
            if !subset_of(d, i).contains(w) {
                assert(subset_of(d, i) =~= Set::<int>::empty());
            }
        }
        let q = choose|q: int| 0 <= q < d.spec_states()[i].nfa_states@.len() && #[trigger] d.spec_states()[i].nfa_states@[q] == w;
        assert(keys[i]@[w]);
        lemma_bits_value_positive(bits[i], w);
    }
    lemma_distinct_bits_bound(bits, n);
}

/// The closure of a non-empty step out of a state's subset is non-empty and
/// reached from `st` by a string.
proof fn lemma_next_subset(
    d: DFA,
    keys: Seq<Vec<bool>>,
    g: Seq<nfa::State>,
    st: int,
    i: int,
    c: char,
    entry: Seq<usize>,
)
    requires
        table_ok(d, keys, g, st),
        0 <= i < d.spec_states().len(),
        id_set(entry) == step(g, subset_of(d, i), c),
        entry.len() > 0,
    ensures
        eclose(g, id_set(entry)) != Set::<int>::empty(),
        exists|w: Seq<char>| eclose(g, id_set(entry)) == reach(g, set![st], w),
{
    lemma_table_state(d, keys, g, st, i);
    let wcur = choose|w: Seq<char>| subset_of(d, i) == reach(g, set![st], w);
    lemma_reach_push(g, set![st], wcur, c);
    let x = entry[0];
    assert(id_set(entry).contains(x as int));
    assert(fpath(g, 0, g.len() as int, -1, x as int, Seq::<char>::empty(), x as int, 0));
    assert(path(g, x as int, Seq::<char>::empty(), x as int));
    assert(eclose(g, id_set(entry)).contains(x as int));
    assert(eclose(g, id_set(entry)) == reach(g, set![st], wcur.push(c)));
}

/// What the table gives once the construction is done.
proof fn lemma_table_final(d: DFA, keys: Seq<Vec<bool>>, g: Seq<nfa::State>, st: int)
    requires
        table_ok(d, keys, g, st),
    ensures
        forall|i: int| 0 <= i < d.spec_states().len() ==> (#[trigger] d.spec_states()[i]).nfa_states@.no_duplicates(),
        d.spec_states().len() >= 1,
        subset_of(d, 0) == eclose(g, set![st]),
        d.ids_match(),
        forall|i: int|
            0 <= i < d.spec_states().len() ==> eclose(g, #[trigger] subset_of(d, i)) == subset_of(d, i)
                && d.spec_states()[i].is_match == has_accept(g, subset_of(d, i)),
        forall|i: int, j: int|
            0 <= i < d.spec_states().len() && 0 <= j < d.spec_states().len() && i != j ==> subset_of(d, i)
                != subset_of(d, j),
        forall|i: int|
            0 <= i < d.spec_states().len() ==> #[trigger] subset_of(d, i) != Set::<int>::empty() && exists|w: Seq<char>|
                subset_of(d, i) == reach(g, set![st], w),
{
    reveal(table_ok);
}

/// Builds a deterministic automaton from a nondeterministic one by the subset
/// construction.
pub struct Determinizer<'a> {
    pub nfa: &'a NFA,
    pub dfa: DFA,
}

impl<'a> Determinizer<'a> {
    /// The automaton being determinized.
    pub open spec fn spec_nfa(&self) -> NFA {
        *self.nfa
    }

    /// The automaton built so far.
    pub open spec fn spec_dfa(&self) -> DFA {
        self.dfa
    }

    pub fn new(nfa: &'a NFA) -> (r: Self)
        ensures
            r.spec_nfa() == *nfa,
            r.spec_dfa().spec_states().len() == 0,
            r.spec_dfa().spec_start() is None,
            forall|i: int, c: char| #[trigger] r.spec_dfa().spec_next(i, c) is None,
    {
        Self { nfa, dfa: DFA::new() }
    }

    /// Runs the subset construction: the start state stands for the closure
    /// of the start of the nondeterministic automaton, and each subset met
    /// becomes exactly one state. There are at most `2^n - 1` of them for `n`
    /// states of the nondeterministic automaton, so it fails, when more
    /// states are needed than ids exist, only if `2^n` exceeds the largest id.
    pub fn build(&mut self) -> (r: Result<(), Error>)
        requires
            old(self).spec_nfa().well_formed(),
            old(self).spec_dfa().spec_states().len() == 0,
            forall|i: int, c: char| #[trigger] old(self).spec_dfa().spec_next(i, c) is None,
        ensures
            final(self).spec_nfa() == old(self).spec_nfa(),
            r matches Err(e) ==> e@ is StateIDOverflow && final(self).spec_dfa().spec_states().len()
                == usize::MAX && pow2(final(self).spec_nfa()@.len()) > usize::MAX,
            pow2(old(self).spec_nfa()@.len()) <= usize::MAX ==> r is Ok,
            r is Ok ==> {
                let d = final(self).spec_dfa();
                let g = final(self).spec_nfa()@;
                &&& subset_construction(d, g, final(self).spec_nfa().start_id())
                &&& d.ids_match()
                &&& d.spec_states().len() <= pow2(g.len()) - 1
                &&& forall|i: int|
                    0 <= i < d.spec_states().len() ==> (#[trigger] d.spec_states()[i]).nfa_states@.no_duplicates()
                &&& forall|s: Seq<char>|
                    #[trigger] d.accepts_word(s) == accepts(g, final(self).spec_nfa().start_id(), s)
            },
    {
        let ghost g = self.spec_nfa()@;
        let ghost st = self.spec_nfa().start_id();
        let n = self.nfa.states_count();
        let start = self.nfa.start();
        let start_state_ids = self.epsilon_closure(&vec![start]);
        proof {
            assert forall|v: int| #[trigger] id_set(seq![start]).contains(v) <==> set![st].contains(v) by {
                if v == st {
                    assert(seq![start][0] == v);
                }
            }
            assert(id_set(seq![start]) =~= set![st]);
            lemma_eclose_idempotent(g, set![st]);
        }
        let is_match = self.contains_accept(&start_state_ids);
        let start_id = self.dfa.new_state(is_match, start_state_ids.as_slice())?;
        self.dfa.set_start(start_id);
        let mut keys: Vec<Vec<bool>> = Vec::new();
        keys.push(self.subset_key(&start_state_ids));
        proof {
            let d = self.dfa;
            assert(d.spec_states()[0].nfa_states@ == start_state_ids@);
            assert(subset_of(d, 0) == eclose(g, set![st]));
            assert(reach(g, set![st], Seq::<char>::empty()) == subset_of(d, 0));
            assert(fpath(g, 0, g.len() as int, -1, st, Seq::<char>::empty(), st, 0));
            assert(path(g, st, Seq::<char>::empty(), st));
            assert(subset_of(d, 0).contains(st));
            reveal(table_ok);
        }
        let mut current: usize = 0;
        while current < self.dfa.states_len()
            invariant
                self.spec_nfa() == old(self).spec_nfa(),
                self.spec_nfa().well_formed(),
                g == self.spec_nfa()@,
                st == self.spec_nfa().start_id(),
                n == g.len(),
                self.dfa.spec_start() == Some(0usize),
                table_ok(self.dfa, keys@, g, st),
                current <= self.dfa.spec_states().len(),
                forall|i: int| 0 <= i < current ==> #[trigger] transitions_follow(self.dfa, g, i),
                forall|i: int, c: char| current <= i ==> #[trigger] self.dfa.spec_next(i, c) is None,
            decreases usize::MAX - current,
        {
            proof {
                lemma_table_state(self.dfa, keys@, g, st, current as int);
            }
            let transitions = self.get_transitions(current);
            let ghost tcur = subset_of(self.dfa, current as int);
            let mut t: usize = 0;
            while t < transitions.len()
                invariant
                    self.spec_nfa() == old(self).spec_nfa(),
                    self.spec_nfa().well_formed(),
                    g == self.spec_nfa()@,
                    st == self.spec_nfa().start_id(),
                    n == g.len(),
                    self.dfa.spec_start() == Some(0usize),
                    table_ok(self.dfa, keys@, g, st),
                    current < self.dfa.spec_states().len(),
                    tcur == subset_of(self.dfa, current as int),
                    t <= transitions@.len(),
                    forall|j: int, k: int| 0 <= j < k < transitions@.len() ==> transitions@[j].0 != transitions@[k].0,
                    forall|j: int|
                        0 <= j < transitions@.len() ==> id_set((#[trigger] transitions@[j]).1@) == step(g, tcur, transitions@[j].0),
                    forall|j: int, q: int|
                        0 <= j < transitions@.len() && 0 <= q < transitions@[j].1@.len() ==> (#[trigger] transitions@[j].1@[q]) < n,
                    forall|j: int| 0 <= j < transitions@.len() ==> (#[trigger] transitions@[j]).1@.len() > 0,
                    forall|c: char|
                        #[trigger] step(g, tcur, c) != Set::<int>::empty()
                            ==> exists|j: int| 0 <= j < transitions@.len() && (#[trigger] transitions@[j]).0 == c,
                    forall|i: int| 0 <= i < current ==> #[trigger] transitions_follow(self.dfa, g, i),
                    forall|i: int, c: char| current < i ==> #[trigger] self.dfa.spec_next(i, c) is None,
                    forall|c: char|
                        match #[trigger] self.dfa.spec_next(current as int, c) {
                            None => forall|j: int| 0 <= j < t ==> (#[trigger] transitions@[j]).0 != c,
                            Some(to) => (exists|j: int| 0 <= j < t && (#[trigger] transitions@[j]).0 == c)
                                && to < self.dfa.spec_states().len() && subset_of(self.dfa, to as int) == eclose(g, step(g, tcur, c)),
                        },
                decreases transitions@.len() - t,
            {
                let input = transitions[t].0;
                let closure = self.epsilon_closure(&transitions[t].1);
                let key = self.subset_key(&closure);
                let ghost d0 = self.dfa;
                let ghost target = id_set(closure@);
                proof {
                    lemma_eclose_idempotent(g, step(g, tcur, input));
                    assert(id_set(transitions@[t as int].1@) == step(g, tcur, input));
                    assert(target == eclose(g, step(g, tcur, input)));
                }
                let to_state_id = match find_subset(&keys, &key) {
                    Some(existing_id) => {
                        proof {
                            lemma_table_found(
                                self.dfa,
                                keys@,
                                g,
                                st,
                                existing_id as int,
                                key@,
                                closure@,
                            );
                        }
                        existing_id
                    },
                    None => {
                        let is_match = self.contains_accept(&closure);
                        let ghost keys0 = keys@;
                        let ghost key_v = key;
                        let new_id = match self.dfa.new_state(is_match, closure.as_slice()) {
                            Ok(id) => id,
                            Err(e) => {
                                proof {
                                    lemma_table_bound(d0, keys@, g, st);
                                }
                                return Err(e);
                            },
                        };
                        keys.push(key);
                        proof {
                            let d1 = self.dfa;
                            let m0 = d0.spec_states().len() as int;
                            assert forall|j: int| 0 <= j < m0 implies #[trigger] d1.spec_states()[j] == d0.spec_states()[j] by {
                                assert(d1.spec_states().drop_last()[j] == d0.spec_states()[j]);
                            }
                            lemma_next_subset(
                                d0,
                                keys0,
                                g,
                                st,
                                current as int,
                                input,
                                transitions@[t as int].1@,
                            );
                            lemma_table_add(d0, d1, keys0, key_v, g, st, closure@);
                            assert(keys0.push(key_v) == keys@);
                            assert forall|i: int| 0 <= i < current implies #[trigger] transitions_follow(d1, g, i) by {
                                lemma_follow_kept(d0, d1, g, i);
                            }
                            assert(subset_of(d1, current as int) == subset_of(d0, current as int));
                            assert forall|j: int| 0 <= j < m0 implies #[trigger] subset_of(d1, j) == subset_of(d0, j) by {
                                assert(d1.spec_states()[j] == d0.spec_states()[j]);
                            }
                        }
                        new_id
                    },
                };
                let ghost d2 = self.dfa;
                self.dfa.add_transition(current, input, to_state_id);
                proof {
                    let d3 = self.dfa;
                    lemma_table_same_states(d2, d3, keys@, g, st);
                    assert forall|i: int| 0 <= i < current implies #[trigger] transitions_follow(d3, g, i) by {
                        lemma_follow_kept(d2, d3, g, i);
                    }
                }
                t = t + 1;
            }
            proof {
                let d = self.dfa;
                assert forall|c: char| match #[trigger] d.spec_next(current as int, c) {
                    None => step(g, subset_of(d, current as int), c) == Set::<int>::empty(),
                    Some(j) => j < d.spec_states().len() && subset_of(d, j as int) == eclose(
                        g,
                        step(g, subset_of(d, current as int), c),
                    ),
                } by {
                    if d.spec_next(current as int, c) is None {
                        if step(g, tcur, c) != Set::<int>::empty() {
                            let j = choose|j: int| 0 <= j < transitions@.len() && (#[trigger] transitions@[j]).0 == c;
                        }
                    }
                }
                assert(transitions_follow(d, g, current as int));
            }
            current = current + 1;
        }
        proof {
            let d = self.dfa;
            lemma_table_final(d, keys@, g, st);
            lemma_table_bound(d, keys@, g, st);
            assert forall|i: int| 0 <= i < d.spec_states().len() implies #[trigger] state_simulates(d, g, i) by {
                assert(transitions_follow(d, g, i));
                assert(eclose(g, subset_of(d, i)) == subset_of(d, i));
            }
            assert(simulates(d, g, st));
            assert(subset_construction(d, g, st));
            assert forall|s: Seq<char>| #[trigger] d.accepts_word(s) == accepts(g, st, s) by {
                lemma_simulates_accepts(d, g, st, s);
            }
        }
        Ok(())
    }

    /// Some state of `ids` accepts.
    fn contains_accept(&self, ids: &Vec<nfa::StateID>) -> (r: bool)
        requires
            forall|j: int| 0 <= j < ids@.len() ==> #[trigger] ids@[j] < self.spec_nfa()@.len(),
        ensures
            r == has_accept(self.spec_nfa()@, id_set(ids@)),
    {
        let ghost g = self.spec_nfa()@;
        let mut j: usize = 0;
        while j < ids.len()
            invariant
                g == self.spec_nfa()@,
                j <= ids@.len(),
                forall|k: int| 0 <= k < ids@.len() ==> #[trigger] ids@[k] < g.len(),
                forall|k: int| 0 <= k < j ==> !g[#[trigger] ids@[k] as int].is_accept(),
            decreases ids@.len() - j,
        {
            if self.nfa.is_accept(ids[j]) {
                proof {
                    assert(id_set(ids@).contains(ids@[j as int] as int));
                }
                return true;
            }
            j = j + 1;
        }
        proof {
            if has_accept(g, id_set(ids@)) {
                let v = choose|v: int| id_set(ids@).contains(v) && 0 <= v < g.len() && #[trigger] g[v].is_accept();
                let k = choose|k: int| 0 <= k < ids@.len() && #[trigger] ids@[k] == v;
            }
        }
        false
    }

    /// The membership bits of `ids` over the states of the automaton: the
    /// canonical key of a subset.
    fn subset_key(&self, ids: &Vec<nfa::StateID>) -> (r: Vec<bool>)
        requires
            forall|j: int| 0 <= j < ids@.len() ==> #[trigger] ids@[j] < self.spec_nfa()@.len(),
        ensures
            r@.len() == self.spec_nfa()@.len(),
            forall|w: int| 0 <= w < r@.len() ==> (#[trigger] r@[w] <==> id_set(ids@).contains(w)),
    {
        let n = self.nfa.states_count();
        let mut bits: Vec<bool> = vec![false; n];
        let mut j: usize = 0;
        while j < ids.len()
            invariant
                n == self.spec_nfa()@.len(),
                bits@.len() == n,
                j <= ids@.len(),
                forall|k: int| 0 <= k < ids@.len() ==> #[trigger] ids@[k] < n,
                forall|w: int| 0 <= w < n ==> (#[trigger] bits@[w] <==> id_set(ids@.subrange(0, j as int)).contains(w)),
            decreases ids@.len() - j,
        {
            let ghost prev = bits@;
            bits.set(ids[j], true);
            proof {
                assert forall|w: int| 0 <= w < n implies (#[trigger] bits@[w] <==> id_set(ids@.subrange(0, j + 1)).contains(w)) by {
                    if id_set(ids@.subrange(0, j as int)).contains(w) {
                        let k = choose|k: int| 0 <= k < j && #[trigger] ids@.subrange(0, j as int)[k] == w;
                        assert(ids@.subrange(0, j + 1)[k] == w);
                    }
                    if w == ids@[j as int] {
                        assert(ids@.subrange(0, j + 1)[j as int] == w);
                    }
                    if id_set(ids@.subrange(0, j + 1)).contains(w) && w != ids@[j as int] {
                        let k = choose|k: int| 0 <= k < j + 1 && #[trigger] ids@.subrange(0, j + 1)[k] == w;
                        assert(ids@.subrange(0, j as int)[k] == w);
                    }
                }
            }
            j = j + 1;
        }
        proof {
            assert(ids@.subrange(0, j as int) =~= ids@);
        }
        bits
    }

    /// The states reachable from `start` through epsilon transitions alone,
    /// each once, in the order a depth-first walk meets them.
    pub fn epsilon_closure(&self, start: &Vec<nfa::StateID>) -> (r: Vec<nfa::StateID>)
        requires
            self.spec_nfa().well_formed(),
            forall|j: int| 0 <= j < start@.len() ==> #[trigger] start@[j] < self.spec_nfa()@.len(),
        ensures
            id_set(r@) == eclose(self.spec_nfa()@, id_set(start@)),
            r@.no_duplicates(),
            forall|j: int| 0 <= j < r@.len() ==> #[trigger] r@[j] < self.spec_nfa()@.len(),
    {
        let ghost g = self.spec_nfa()@;
        let ghost set = id_set(start@);
        let ghost e = eclose(g, set);
        let n = self.nfa.states_count();
        let mut closure: Vec<nfa::StateID> = Vec::new();
        let mut stack: Vec<nfa::StateID> = Vec::new();
        let mut visited: Vec<bool> = vec![false; n];
        let mut j: usize = 0;
        while j < start.len()
            invariant
                j <= start@.len(),
                stack@ == start@.subrange(0, j as int),
            decreases start@.len() - j,
        {
            stack.push(start[j]);
            j = j + 1;
        }
        proof {
            assert(stack@ =~= start@);
            assert forall|u: int| #[trigger] set.contains(u) implies e.contains(u) by {
                assert(fpath(g, 0, g.len() as int, -1, u, Seq::<char>::empty(), u, 0));
                assert(path(g, u, Seq::<char>::empty(), u));
            }
        }
        while stack.len() > 0
            invariant
                g == self.spec_nfa()@,
                e == eclose(g, set),
                targets_valid(g),
                n == g.len(),
                visited@.len() == n,
                forall|v: int| 0 <= v < n ==> (#[trigger] visited@[v] <==> id_set(closure@).contains(v)),
                closure@.no_duplicates(),
                forall|i: int| 0 <= i < closure@.len() ==> #[trigger] closure@[i] < n,
                forall|i: int| 0 <= i < stack@.len() ==> #[trigger] stack@[i] < n,
                forall|v: int| #[trigger] id_set(closure@).contains(v) ==> e.contains(v),
                forall|v: int| #[trigger] id_set(stack@).contains(v) ==> e.contains(v),
                forall|v: int|
                    #[trigger] set.contains(v) ==> id_set(closure@).contains(v) || id_set(stack@).contains(v),
                forall|x: int, i: int|
                    id_set(closure@).contains(x) && 0 <= x < n && 0 <= i < g[x].transitions().len()
                        && g[x].transitions()[i].kind is Epsilon ==> id_set(closure@).contains(
                        (#[trigger] g[x].transitions()[i]).to_id as int,
                    ) || id_set(stack@).contains(g[x].transitions()[i].to_id as int),
            decreases count_false(visited@), stack@.len(),
        {
            let ghost old_stack = stack@;
            let ghost old_closure = closure@;
            let state_id = stack.pop().unwrap();
            proof {
                assert(stack@ == old_stack.drop_last());
                assert forall|v: int| #[trigger] id_set(old_stack).contains(v) implies id_set(stack@).contains(v) || v == state_id by {
                    let i = choose|i: int| 0 <= i < old_stack.len() && #[trigger] old_stack[i] == v;
                    if i < old_stack.len() - 1 {
                        assert(stack@[i] == v);
                    }
                }
                assert forall|v: int| #[trigger] id_set(stack@).contains(v) implies id_set(old_stack).contains(v) by {
                    let i = choose|i: int| 0 <= i < stack@.len() && #[trigger] stack@[i] == v;
                    assert(old_stack[i] == v);
                }
                assert(id_set(old_stack).contains(state_id as int)) by {
                    assert(old_stack[old_stack.len() - 1] == state_id);
                }
            }
            if !visited[state_id] {
                closure.push(state_id);
                proof {
                    lemma_count_false_set(visited@, state_id as int);
                    assert forall|v: int| #[trigger] id_set(closure@).contains(v) <==> id_set(old_closure).contains(v) || v == state_id by {
                        if id_set(old_closure).contains(v) {
                            let i = choose|i: int| 0 <= i < old_closure.len() && #[trigger] old_closure[i] == v;
                            assert(closure@[i] == v);
                        }
                        if v == state_id {
                            assert(closure@[closure@.len() - 1] == v);
                        }
                        if id_set(closure@).contains(v) && v != state_id {
                            let i = choose|i: int| 0 <= i < closure@.len() && #[trigger] closure@[i] == v;
                            assert(old_closure[i] == v);
                        }
                    }
                    assert(closure@.no_duplicates()) by {
                        assert forall|a: int, b: int| 0 <= a < b < closure@.len() implies closure@[a] != closure@[b] by {
                            if b == closure@.len() - 1 {
                                assert(id_set(old_closure).contains(closure@[a] as int));
                            }
                        }
                    }
                }
                visited.set(state_id, true);
                let transitions = self.nfa.state(state_id).unwrap().as_transitions();
                let ghost before = stack@;
                let mut b: usize = 0;
                while b < transitions.len()
                    invariant
                        g == self.spec_nfa()@,
                        e == eclose(g, set),
                        targets_valid(g),
                        state_id < n == g.len(),
                        transitions@ == g[state_id as int].transitions(),
                        b <= transitions@.len(),
                        e.contains(state_id as int),
                        stack@.len() >= before.len(),
                        stack@.subrange(0, before.len() as int) == before,
                        forall|i: int| 0 <= i < stack@.len() ==> #[trigger] stack@[i] < n,
                        forall|v: int| #[trigger] id_set(stack@).contains(v) ==> e.contains(v),
                        forall|i: int|
                            0 <= i < b && (#[trigger] transitions@[i]).kind is Epsilon ==> id_set(stack@).contains(
                                transitions@[i].to_id as int,
                            ),
                    decreases transitions@.len() - b,
                {
                    let transition = transitions[b];
                    if let TransitionKind::Epsilon = transition.kind() {
                        let ghost prev = stack@;
                        stack.push(transition.to_id());
                        proof {
                            lemma_eclose_eps_step(g, set, state_id as int, b as int);
                            assert(stack@.subrange(0, before.len() as int) =~= prev.subrange(0, before.len() as int));
                            assert forall|v: int| #[trigger] id_set(stack@).contains(v) implies id_set(prev).contains(v) || v == transition.to_id by {
                                let i = choose|i: int| 0 <= i < stack@.len() && #[trigger] stack@[i] == v;
                                if i < prev.len() {
                                    assert(prev[i] == v);
                                }
                            }
                            assert forall|v: int| #[trigger] id_set(prev).contains(v) implies id_set(stack@).contains(v) by {
                                let i = choose|i: int| 0 <= i < prev.len() && #[trigger] prev[i] == v;
                                assert(stack@[i] == v);
                            }
                            assert(stack@[stack@.len() - 1] == transition.to_id);
                        }
                    }
                    b = b + 1;
                }
                proof {
                    assert forall|v: int| #[trigger] id_set(before).contains(v) implies id_set(stack@).contains(v) by {
                        let i = choose|i: int| 0 <= i < before.len() && #[trigger] before[i] == v;
                        assert(stack@.subrange(0, before.len() as int)[i] == v);
                    }
                }
            }
        }
        proof {
            let c = id_set(closure@);
            assert forall|v: int| #[trigger] c.contains(v) <==> e.contains(v) by {
                if e.contains(v) {
                    let u = choose|u: int| set.contains(u) && #[trigger] path(g, u, Seq::<char>::empty(), v);
                    let k = choose|k: nat| #[trigger] fpath(g, 0, g.len() as int, -1, u, Seq::<char>::empty(), v, k);
                    lemma_eps_closed_contains(g, c, u, v, k);
                }
            }
            assert(c =~= e);
        }
        closure
    }

    /// For each character that a transition out of the subset of DFA state
    /// `state_id` reads, in the order first met, the sorted ids of the states
    /// those transitions lead to.
    fn get_transitions(&self, state_id: StateID) -> (r: Vec<(char, Vec<nfa::StateID>)>)
        requires
            self.spec_nfa().well_formed(),
            state_id < self.dfa.spec_states().len(),
            forall|j: int|
                0 <= j < self.dfa.spec_states()[state_id as int].nfa_states@.len() ==> #[trigger] self.dfa.spec_states()[state_id as int].nfa_states@[j]
                    < self.spec_nfa()@.len(),
        ensures
            forall|j: int, k: int| 0 <= j < k < r@.len() ==> r@[j].0 != r@[k].0,
            forall|j: int|
                0 <= j < r@.len() ==> id_set((#[trigger] r@[j]).1@) == step(
                    self.spec_nfa()@,
                    subset_of(self.dfa, state_id as int),
                    r@[j].0,
                ),
            forall|j: int, q: int|
                0 <= j < r@.len() && 0 <= q < r@[j].1@.len() ==> (#[trigger] r@[j].1@[q]) < self.spec_nfa()@.len(),
            forall|j: int| 0 <= j < r@.len() ==> (#[trigger] r@[j]).1@.len() > 0,
            forall|j: int, p: int, q: int|
                0 <= j < r@.len() && 0 <= p < q < r@[j].1@.len() ==> #[trigger] r@[j].1@[p] < #[trigger] r@[j].1@[q],
            forall|c: char|
                #[trigger] step(self.spec_nfa()@, subset_of(self.dfa, state_id as int), c) != Set::<int>::empty()
                    ==> exists|j: int| 0 <= j < r@.len() && (#[trigger] r@[j]).0 == c,
    {
        let ghost g = self.spec_nfa()@;
        let state = self.dfa.state(state_id).unwrap();
        let ids = &state.nfa_states;
        let n = self.nfa.states_count();
        let mut chars: Vec<char> = Vec::new();
        let mut targets: Vec<Vec<bool>> = Vec::new();
        let ghost mut witness: Seq<int> = Seq::empty();
        let mut a: usize = 0;
        while a < ids.len()
            invariant
                g == self.spec_nfa()@,
                targets_valid(g),
                n == g.len(),
                a <= ids@.len(),
                forall|j: int| 0 <= j < ids@.len() ==> #[trigger] ids@[j] < n,
                chars@.len() == targets@.len(),
                forall|j: int, k: int| 0 <= j < k < chars@.len() ==> chars@[j] != chars@[k],
                forall|j: int| 0 <= j < targets@.len() ==> (#[trigger] targets@[j])@.len() == n,
                witness.len() == targets@.len(),
                forall|j: int| 0 <= j < targets@.len() ==> 0 <= #[trigger] witness[j] < n && targets@[j]@[witness[j]],
                forall|j: int, w: int|
                    0 <= j < targets@.len() && 0 <= w < n ==> (#[trigger] targets@[j]@[w] <==> read_before(
                        g,
                        ids@,
                        a as int,
                        0,
                        chars@[j],
                        w,
                    )),
                forall|c: char, w: int| #[trigger] read_before(g, ids@, a as int, 0, c, w) ==> chars@.contains(c),
            decreases ids@.len() - a,
        {
            let nfa_state_id = ids[a];
            let transitions = self.nfa.state(nfa_state_id).unwrap().as_transitions();
            let mut b: usize = 0;
            while b < transitions.len()
                invariant
                    g == self.spec_nfa()@,
                    targets_valid(g),
                    n == g.len(),
                    a < ids@.len(),
                    nfa_state_id == ids@[a as int],
                    forall|j: int| 0 <= j < ids@.len() ==> #[trigger] ids@[j] < n,
                    transitions@ == g[nfa_state_id as int].transitions(),
                    b <= transitions@.len(),
                    chars@.len() == targets@.len(),
                    forall|j: int, k: int| 0 <= j < k < chars@.len() ==> chars@[j] != chars@[k],
                    forall|j: int| 0 <= j < targets@.len() ==> (#[trigger] targets@[j])@.len() == n,
                    witness.len() == targets@.len(),
                forall|j: int| 0 <= j < targets@.len() ==> 0 <= #[trigger] witness[j] < n && targets@[j]@[witness[j]],
                    forall|j: int, w: int|
                        0 <= j < targets@.len() && 0 <= w < n ==> (#[trigger] targets@[j]@[w] <==> read_before(
                            g,
                            ids@,
                            a as int,
                            b as int,
                            chars@[j],
                            w,
                        )),
                    forall|c: char, w: int| #[trigger] read_before(g, ids@, a as int, b as int, c, w) ==> chars@.contains(c),
                decreases transitions@.len() - b,
            {
                let transition = transitions[b];
                proof {
                    assert forall|c: char, w: int| #[trigger] read_before(g, ids@, a as int, b + 1, c, w) == (read_before(g, ids@, a as int, b as int, c, w) || (
                        transition.to_id == w && transition.kind == TransitionKind::Literal(c))) by {
                        lemma_read_next(g, ids@, a as int, b as int, c, w);
                    }
                }
                if let TransitionKind::Literal(c) = transition.kind() {
                    let ghost chars_before = chars@;
                    let mut j: usize = 0;
                    while j < chars.len() && chars[j] != *c
                        invariant
                            j <= chars@.len(),
                            forall|k: int| 0 <= k < j ==> chars@[k] != *c,
                        decreases chars@.len() - j,
                    {
                        j = j + 1;
                    }
                    if j == chars.len() {
                        chars.push(*c);
                        targets.push(vec![false; n]);
                        proof {
                            witness = witness.push(transition.to_id as int);
                        }
                        proof {
                            assert forall|w: int| 0 <= w < n implies !read_before(g, ids@, a as int, b as int, *c, w) by {
                                if read_before(g, ids@, a as int, b as int, *c, w) {
                                    assert(chars@.drop_last().contains(*c));
                                }
                            }
                        }
                    }
                    proof {
                        assert(transition.to_id < n);
                    }
                    let ghost targets_before = targets@;
                    targets[j].set(transition.to_id(), true);
                    proof {
                        assert forall|k: int| 0 <= k < targets@.len() implies 0 <= #[trigger] witness[k] < n && targets@[k]@[witness[k]] by {
                            if k != j {
                                assert(targets@[k] == targets_before[k]);
                            }
                        }
                        assert forall|c2: char, w: int| #[trigger] read_before(g, ids@, a as int, b + 1, c2, w) implies chars@.contains(c2) by {
                            if read_before(g, ids@, a as int, b as int, c2, w) {
                                let k = choose|k: int| 0 <= k < chars_before.len() && chars_before[k] == c2;
                                assert(chars@[k] == c2);
                            } else {
                                assert(chars@[j as int] == c2);
                            }
                        }
                    }
                }
                b = b + 1;
            }
            proof {
                assert forall|c: char, w: int| #[trigger] read_before(g, ids@, a as int, b as int, c, w) == read_before(g, ids@, a + 1, 0, c, w) by {
                    lemma_read_row_end(g, ids@, a as int, c, w);
                }
                assert forall|c: char, w: int| #[trigger] read_before(g, ids@, a + 1, 0, c, w) implies chars@.contains(c) by {
                    lemma_read_row_end(g, ids@, a as int, c, w);
                }
            }
            a = a + 1;
        }
        let mut result: Vec<(char, Vec<nfa::StateID>)> = Vec::new();
        let mut j: usize = 0;
        while j < chars.len()
            invariant
                g == self.spec_nfa()@,
                n == g.len(),
                a == ids@.len(),
                forall|q: int| 0 <= q < ids@.len() ==> #[trigger] ids@[q] < n,
                chars@.len() == targets@.len(),
                j <= chars@.len(),
                result@.len() == j,
                forall|q: int| 0 <= q < targets@.len() ==> (#[trigger] targets@[q])@.len() == n,
                witness.len() == targets@.len(),
                forall|q: int| 0 <= q < targets@.len() ==> 0 <= #[trigger] witness[q] < n && targets@[q]@[witness[q]],
                forall|q: int| 0 <= q < j ==> (#[trigger] result@[q]).0 == chars@[q],
                forall|q: int| 0 <= q < j ==> (#[trigger] result@[q]).1@.len() > 0,
                forall|q: int, a: int, b: int|
                    0 <= q < j && 0 <= a < b < result@[q].1@.len() ==> #[trigger] result@[q].1@[a] < #[trigger] result@[q].1@[b],
                forall|q: int, w: int|
                    0 <= q < j ==> (#[trigger] id_set(result@[q].1@).contains(w) <==> 0 <= w < n && targets@[q]@[w]),
                forall|q: int, k: int|
                    0 <= q < j && 0 <= k < result@[q].1@.len() ==> (#[trigger] result@[q].1@[k]) < n,
            decreases chars@.len() - j,
        {
            let list = ids_of(&targets[j]);
            proof {
                assert(id_set(list@).contains(witness[j as int]));
            }
            result.push((chars[j], list));
            j = j + 1;
        }
        proof {
            let t = subset_of(self.dfa, state_id as int);
            assert(ids@ == self.dfa.spec_states()[state_id as int].nfa_states@);
            assert forall|q: int| 0 <= q < result@.len() implies id_set((#[trigger] result@[q]).1@) == step(g, t, result@[q].0) by {
                assert forall|w: int| #[trigger] id_set(result@[q].1@).contains(w) <==> step(g, t, result@[q].0).contains(w) by {
                    lemma_read_all(g, ids@, result@[q].0, w);
                    if step(g, t, result@[q].0).contains(w) {
                        assert(0 <= w < n);
                    }
                }
                assert(id_set(result@[q].1@) =~= step(g, t, result@[q].0));
            }
            assert forall|c: char| #[trigger] step(g, t, c) != Set::<int>::empty() implies exists|q: int| 0 <= q < result@.len() && (#[trigger] result@[q]).0 == c by {
                assert(exists|w: int| step(g, t, c).contains(w)) by {
                    if !(exists|w: int| step(g, t, c).contains(w)) {
                        assert(step(g, t, c) =~= Set::<int>::empty());
                    }
                }
                let w = choose|w: int| step(g, t, c).contains(w);
                lemma_read_all(g, ids@, c, w);
                let q = choose|q: int| 0 <= q < chars@.len() && chars@[q] == c;
                assert(result@[q].0 == c);
            }
        }
        result
    }
}

} // verus!
