use vstd::prelude::*;
use crate::sorted::{is_sorted, sorted_between, swap_items};

verus! {

/// Sorts `arr` in place into non-decreasing order by repeatedly exchanging
/// adjacent values that are out of order.
pub fn bubble_sort(arr: &mut Vec<i32>)
    ensures
        is_sorted(final(arr)@),
        final(arr)@.to_multiset() == old(arr)@.to_multiset(),
{
    let length = arr.len();
    let mut i: usize = 0;
    while i < length
        invariant
            length == arr@.len(),
            i <= length,
            arr@.to_multiset() == old(arr)@.to_multiset(),
            sorted_between(arr@, length - i, length as int),
            forall|a: int, b: int| 0 <= a < length - i <= b < length ==> arr@[a] <= arr@[b],
        decreases length - i,
    {
        let mut j: usize = 0;
        while j < length - i - 1
            invariant
                length == arr@.len(),
                i < length,
                j <= length - i - 1,
                arr@.to_multiset() == old(arr)@.to_multiset(),
                sorted_between(arr@, length - i, length as int),
                forall|a: int, b: int| 0 <= a < length - i <= b < length ==> arr@[a] <= arr@[b],
                forall|a: int| 0 <= a <= j ==> arr@[a] <= arr@[j as int],
            decreases length - i - 1 - j,
        {
            if arr[j] > arr[j + 1] {
                swap_items(arr, j, j + 1);
            }
            j = j + 1;
        }
        i = i + 1;
    }
}

} // verus!
