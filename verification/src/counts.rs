//! Sample counts of one stack, one for each processor, and their sum.

use vstd::prelude::*;

verus! {

/// The sum of the values.
pub open spec fn sum(values: Seq<u64>) -> nat
    decreases values.len(),
{
    if values.len() == 0 {
        0
    } else {
        sum(values.drop_last()) + values.last() as nat
    }
}

/// The values of a prefix add up to no more than all values.
pub proof fn lemma_sum_prefix(values: Seq<u64>, n: int)
    requires
        0 <= n <= values.len(),
    ensures
        sum(values.take(n)) <= sum(values),
    decreases values.len(),
{
    if n == values.len() {
        assert(values.take(n) =~= values);
    } else {
        lemma_sum_prefix(values.drop_last(), n);
        assert(values.drop_last().take(n) =~= values.take(n));
    }
}

/// Replacing one value changes the sum by the difference.
pub proof fn lemma_sum_update(values: Seq<u64>, i: int, value: u64)
    requires
        0 <= i < values.len(),
    ensures
        sum(values.update(i, value)) + values[i] == sum(values) + value,
    decreases values.len(),
{
    let changed = values.update(i, value);
    if i == values.len() - 1 {
        assert(changed.drop_last() =~= values.drop_last());
    } else {
        lemma_sum_update(values.drop_last(), i, value);
        assert(changed.drop_last() =~= values.drop_last().update(i, value));
    }
}

/// Values that are all zero add up to zero.
pub proof fn lemma_sum_zero(values: Seq<u64>)
    requires
        forall|i: int| 0 <= i < values.len() ==> values[i] == 0,
    ensures
        sum(values) == 0,
    decreases values.len(),
{
    if values.len() > 0 {
        lemma_sum_zero(values.drop_last());
    }
}

/// Merges the counts that the processors hold for one stack: their sum, or
/// `None` where the sum is more than a `u64` holds.
pub fn merge_processors(values: &Vec<u64>) -> (merged: Option<u64>)
    ensures
        merged is Some <==> sum(values@) <= u64::MAX,
        merged matches Some(merged) ==> merged == sum(values@),
{
    let mut merged: u64 = 0;
    let mut i: usize = 0;
    while i < values.len()
        invariant
            i <= values@.len(),
            merged == sum(values@.take(i as int)),
        decreases values@.len() - i,
    {
        assert(values@.take(i + 1).drop_last() =~= values@.take(i as int));
        match merged.checked_add(values[i]) {
            Some(next) => {
                merged = next;
            },
            None => {
                proof {
                    lemma_sum_prefix(values@, i + 1);
                }
                return None;
            },
        }
        i = i + 1;
    }
    assert(values@.take(i as int) =~= values@);
    Some(merged)
}

} // verus!
