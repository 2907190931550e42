//! Sums and counts over sequences, used for the solver's progress measures.

use vstd::prelude::*;

verus! {

/// The sum of a sequence of naturals.
pub open spec fn seq_sum(s: Seq<nat>) -> nat
    decreases s.len(),
{
    if s.len() == 0 {
        0
    } else {
        seq_sum(s.drop_last()) + s.last()
    }
}

/// The number of set flags in a sequence of booleans.
pub open spec fn count_true(s: Seq<bool>) -> nat
    decreases s.len(),
{
    if s.len() == 0 {
        0
    } else {
        count_true(s.drop_last()) + if s.last() {
            1nat
        } else {
            0nat
        }
    }
}

/// A pointwise bound on the elements bounds the sum.
pub proof fn lemma_seq_sum_le(a: Seq<nat>, b: Seq<nat>)
    requires
        a.len() == b.len(),
        forall|i: int| 0 <= i < a.len() ==> a[i] <= b[i],
    ensures
        seq_sum(a) <= seq_sum(b),
    decreases a.len(),
{
    if a.len() > 0 {
        lemma_seq_sum_le(a.drop_last(), b.drop_last());
    }
}

/// A pointwise bound that is strict somewhere makes the sum strictly smaller.
pub proof fn lemma_seq_sum_lt(a: Seq<nat>, b: Seq<nat>, k: int)
    requires
        a.len() == b.len(),
        forall|i: int| 0 <= i < a.len() ==> a[i] <= b[i],
        0 <= k < a.len(),
        a[k] < b[k],
    ensures
        seq_sum(a) < seq_sum(b),
    decreases a.len(),
{
    if k == a.len() - 1 {
        lemma_seq_sum_le(a.drop_last(), b.drop_last());
    } else {
        lemma_seq_sum_lt(a.drop_last(), b.drop_last(), k);
    }
}

/// The count of set flags never exceeds the length.
pub proof fn lemma_count_true_le_len(s: Seq<bool>)
    ensures
        count_true(s) <= s.len(),
    decreases s.len(),
{
    if s.len() > 0 {
        lemma_count_true_le_len(s.drop_last());
    }
}

/// Setting one clear flag, and keeping every other flag as it was, raises the
/// count by exactly one.
pub proof fn lemma_count_true_set_one(a: Seq<bool>, b: Seq<bool>, k: int)
    requires
        a.len() == b.len(),
        0 <= k < a.len(),
        !a[k],
        b[k],
        forall|i: int| 0 <= i < a.len() && i != k ==> a[i] == b[i],
    ensures
        count_true(b) == count_true(a) + 1,
    decreases a.len(),
{
    if k == a.len() - 1 {
        lemma_count_true_eq(a.drop_last(), b.drop_last());
    } else {
        lemma_count_true_set_one(a.drop_last(), b.drop_last(), k);
    }
}

/// Equal sequences of flags have equal counts.
pub proof fn lemma_count_true_eq(a: Seq<bool>, b: Seq<bool>)
    requires
        a.len() == b.len(),
        forall|i: int| 0 <= i < a.len() ==> a[i] == b[i],
    ensures
        count_true(a) == count_true(b),
    decreases a.len(),
{
    if a.len() > 0 {
        lemma_count_true_eq(a.drop_last(), b.drop_last());
    }
}

} // verus!
