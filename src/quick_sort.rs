use vstd::prelude::*;
use crate::sorted::{
    is_sorted, lemma_permuted_bounds, lemma_permuted_chain, lemma_permuted_widen, permuted_within,
    sorted_between, swap_items,
};

verus! {

/// Sorts positions `lo..=hi` of `arr` in place.
fn qs(arr: &mut Vec<i32>, lo: usize, hi: usize)
    requires
        hi < old(arr)@.len(),
        lo <= hi + 1,
    ensures
        permuted_within(old(arr)@, final(arr)@, lo as int, hi + 1),
        sorted_between(final(arr)@, lo as int, hi + 1),
    decreases hi + 1 - lo,
{
    if lo >= hi {
        proof {
            assert(old(arr)@.subrange(lo as int, hi + 1) =~= arr@.subrange(lo as int, hi + 1));
        }
        return;
    }
    let pivot_idx = partition(arr, lo, hi);
    let ghost after_partition = arr@;
    let ghost pivot = arr@[pivot_idx as int];
    if pivot_idx > lo {
        qs(arr, lo, pivot_idx - 1);
        proof {
            lemma_permuted_bounds(after_partition, arr@, lo as int, pivot_idx as int, i32::MIN as int, pivot as int);
            lemma_permuted_widen(after_partition, arr@, lo as int, hi + 1, lo as int, pivot_idx as int);
        }
    }
    let ghost after_left = arr@;
    proof {
        assert(after_left == after_partition || permuted_within(after_partition, after_left, lo as int, hi + 1));
        if after_left == after_partition {
            assert(after_left.subrange(lo as int, hi + 1) =~= after_partition.subrange(lo as int, hi + 1));
        }
    }
    if pivot_idx < hi {
        qs(arr, pivot_idx + 1, hi);
        proof {
            lemma_permuted_bounds(after_left, arr@, pivot_idx + 1, hi + 1, pivot + 1, i32::MAX as int);
            lemma_permuted_widen(after_left, arr@, lo as int, hi + 1, pivot_idx + 1, hi + 1);
        }
    }
    proof {
        if arr@ == after_left {
            assert(after_left.subrange(lo as int, hi + 1) =~= arr@.subrange(lo as int, hi + 1));
        }
        lemma_permuted_chain(after_partition, after_left, arr@, lo as int, hi + 1);
        lemma_permuted_chain(old(arr)@, after_partition, arr@, lo as int, hi + 1);
    }
}

/// Moves the value at `hi` to its sorted place among positions `lo..=hi`,
/// with no greater value before it and only greater values after it;
/// returns that place.
fn partition(arr: &mut Vec<i32>, lo: usize, hi: usize) -> (p: usize)
    requires
        lo < hi < old(arr)@.len(),
    ensures
        lo <= p <= hi,
        permuted_within(old(arr)@, final(arr)@, lo as int, hi + 1),
        final(arr)@[p as int] == old(arr)@[hi as int],
        forall|k: int| lo <= k < p ==> final(arr)@[k] <= final(arr)@[p as int],
        forall|k: int| p < k <= hi ==> final(arr)@[k] > final(arr)@[p as int],
{
    let pivot = arr[hi];
    let mut idx = lo;
    let mut i = lo;
    proof {
        assert(old(arr)@.subrange(lo as int, hi + 1) =~= arr@.subrange(lo as int, hi + 1));
    }
    while i < hi
        invariant
            lo <= idx <= i <= hi < arr@.len(),
            permuted_within(old(arr)@, arr@, lo as int, hi + 1),
            arr@[hi as int] == pivot,
            forall|k: int| lo <= k < idx ==> arr@[k] <= pivot,
            forall|k: int| idx <= k < i ==> arr@[k] > pivot,
        decreases hi - i,
    {
        if arr[i] <= pivot {
            idx = idx + 1;
            let ghost before = arr@;
            swap_items(arr, i, idx - 1);
            proof {
                assert(permuted_within(before, arr@, lo as int, hi + 1));
                lemma_permuted_chain(old(arr)@, before, arr@, lo as int, hi + 1);
            }
        }
        i = i + 1;
    }
    let ghost before = arr@;
    swap_items(arr, idx, hi);
    proof {
        assert(permuted_within(before, arr@, lo as int, hi + 1));
        lemma_permuted_chain(old(arr)@, before, arr@, lo as int, hi + 1);
    }
    idx
}

/// Sorts `arr` in place into non-decreasing order by partitioning around
/// the last value of each stretch and sorting the two sides.
pub fn quick_sort(arr: &mut Vec<i32>)
    ensures
        is_sorted(final(arr)@),
        final(arr)@.to_multiset() == old(arr)@.to_multiset(),
{
    let len = arr.len();
    if len == 0 {
        return;
    }
    qs(arr, 0, len - 1);
    proof {
        assert(old(arr)@.subrange(0, len as int) =~= old(arr)@);
        assert(arr@.subrange(0, len as int) =~= arr@);
    }
}

} // verus!
