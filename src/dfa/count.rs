use vstd::prelude::*;

use vstd::arithmetic::power2::{lemma_pow2_pos, lemma_pow2_unfold, pow2};
use vstd::set_lib::{lemma_int_range, lemma_len_subset, set_int_range};

verus! {

/// The number whose binary digits, most significant first, are `bits`.
pub open spec fn bits_value(bits: Seq<bool>) -> nat
    decreases bits.len(),
{
    if bits.len() == 0 {
        0
    } else {
        2 * bits_value(bits.drop_last()) + if bits.last() {
            1nat
        } else {
            0nat
        }
    }
}

/// `n` bits make a number below `2^n`.
pub proof fn lemma_bits_value_bound(bits: Seq<bool>)
    ensures
        bits_value(bits) < pow2(bits.len()),
    decreases bits.len(),
{
    if bits.len() == 0 {
        lemma_pow2_pos(0);
    } else {
        lemma_bits_value_bound(bits.drop_last());
        lemma_pow2_unfold(bits.len());
    }
}

/// Bit vectors of one length with the same number are equal.
pub proof fn lemma_bits_value_injective(a: Seq<bool>, b: Seq<bool>)
    requires
        a.len() == b.len(),
        bits_value(a) == bits_value(b),
    ensures
        a == b,
    decreases a.len(),
{
    if a.len() > 0 {
        assert(a.last() == b.last());
        lemma_bits_value_injective(a.drop_last(), b.drop_last());
        assert(a =~= a.drop_last().push(a.last()));
        assert(b =~= b.drop_last().push(b.last()));
    } else {
        assert(a =~= b);
    }
}

/// A bit vector with a set bit has a positive number.
pub proof fn lemma_bits_value_positive(bits: Seq<bool>, w: int)
    requires
        0 <= w < bits.len(),
        bits[w],
    ensures
        bits_value(bits) > 0,
    decreases bits.len(),
{
    if w < bits.len() - 1 {
        assert(bits.drop_last()[w]);
        lemma_bits_value_positive(bits.drop_last(), w);
    }
}

/// There are at most `2^n - 1` distinct bit vectors of length `n` with a
/// set bit.
pub proof fn lemma_distinct_bits_bound(keys: Seq<Seq<bool>>, n: nat)
    requires
        forall|i: int| 0 <= i < keys.len() ==> (#[trigger] keys[i]).len() == n,
        forall|i: int, j: int| 0 <= i < j < keys.len() ==> keys[i] != keys[j],
        forall|i: int| 0 <= i < keys.len() ==> bits_value(#[trigger] keys[i]) > 0,
    ensures
        keys.len() <= pow2(n) - 1,
{
    let vals = keys.map_values(|k: Seq<bool>| bits_value(k) as int);
    assert(vals.no_duplicates()) by {
        assert forall|i: int, j: int| 0 <= i < vals.len() && 0 <= j < vals.len() && i != j implies vals[i]
            != vals[j] by {
            if vals[i] == vals[j] {
                lemma_bits_value_injective(keys[i], keys[j]);
                if i < j {
                    assert(keys[i] != keys[j]);
                } else {
                    assert(keys[j] != keys[i]);
                }
            }
        }
    }
    let range = set_int_range(1, pow2(n) as int);
    lemma_pow2_pos(n);
    lemma_int_range(1, pow2(n) as int);
    assert forall|v: int| #[trigger] vals.to_set().contains(v) implies range.contains(v) by {
        let i = choose|i: int| 0 <= i < vals.len() && vals[i] == v;
        lemma_bits_value_bound(keys[i]);
    }
    vals.unique_seq_to_set();
    lemma_len_subset(vals.to_set(), range);
}

} // verus!
