//! Sums of integer sequences, shared by the solver kernels.

use vstd::prelude::*;

verus! {

/// The sum of all entries of `v`.
pub open spec fn seq_sum(v: Seq<int>) -> int
    decreases v.len(),
{
    if v.len() == 0 {
        0
    } else {
        seq_sum(v.drop_last()) + v.last()
    }
}

/// Whether every entry of `v` is non-negative.
pub open spec fn nonneg(v: Seq<int>) -> bool {
    forall|i: int| 0 <= i < v.len() ==> v[i] >= 0
}

/// Unfolds one step of a prefix sum.
pub proof fn lemma_sum_step(v: Seq<int>, k: int)
    requires
        0 < k <= v.len(),
    ensures
        seq_sum(v.subrange(0, k)) == seq_sum(v.subrange(0, k - 1)) + v[k - 1],
{
    assert(v.subrange(0, k).drop_last() =~= v.subrange(0, k - 1));
}

/// A prefix sum of a non-negative sequence never exceeds the whole sum.
pub proof fn lemma_sum_prefix_le(v: Seq<int>, k: int)
    requires
        nonneg(v),
        0 <= k <= v.len(),
    ensures
        seq_sum(v.subrange(0, k)) <= seq_sum(v),
    decreases v.len() - k,
{
    if k == v.len() {
        assert(v.subrange(0, k) =~= v);
    } else {
        lemma_sum_prefix_le(v, k + 1);
        lemma_sum_step(v, k + 1);
    }
}

/// The sum of a non-negative sequence is non-negative.
pub proof fn lemma_sum_nonneg(v: Seq<int>)
    requires
        nonneg(v),
    ensures
        seq_sum(v) >= 0,
    decreases v.len(),
{
    if v.len() > 0 {
        assert(nonneg(v.drop_last()));
        lemma_sum_nonneg(v.drop_last());
    }
}

/// Writes out the sum of a nine-entry sequence.
pub proof fn lemma_sum9(v: Seq<int>)
    requires
        v.len() == 9,
    ensures
        seq_sum(v) == v[0] + v[1] + v[2] + v[3] + v[4] + v[5] + v[6] + v[7] + v[8],
{
    assert(v.subrange(0, 9) =~= v);
    assert(v.subrange(0, 0) =~= Seq::<int>::empty());
    lemma_sum_step(v, 9);
    lemma_sum_step(v, 8);
    lemma_sum_step(v, 7);
    lemma_sum_step(v, 6);
    lemma_sum_step(v, 5);
    lemma_sum_step(v, 4);
    lemma_sum_step(v, 3);
    lemma_sum_step(v, 2);
    lemma_sum_step(v, 1);
}

/// In a non-negative sequence, any single entry is at most the sum.
pub proof fn lemma_entry_le_sum(v: Seq<int>, i: int)
    requires
        nonneg(v),
        0 <= i < v.len(),
    ensures
        v[i] <= seq_sum(v),
    decreases v.len(),
{
    if i == v.len() - 1 {
        assert(nonneg(v.drop_last()));
        lemma_sum_nonneg(v.drop_last());
    } else {
        assert(nonneg(v.drop_last()));
        lemma_entry_le_sum(v.drop_last(), i);
    }
}

} // verus!
