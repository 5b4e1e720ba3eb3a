use vstd::prelude::*;

verus! {

/// The values never decrease from one position to the next.
pub open spec fn sorted_u32(s: Seq<u32>) -> bool {
    forall|i: int, j: int| 0 <= i <= j < s.len() ==> s[i] <= s[j]
}

/// Whether `needle` occurs in `haystack`, halving the window that can still
/// hold it at each step. A `true` is always right; on a sorted haystack the
/// answer is exact.
pub fn binary_search(haystack: &[u32], needle: u32) -> (r: bool)
    ensures
        r ==> haystack@.contains(needle),
        sorted_u32(haystack@) ==> r == haystack@.contains(needle),
{
    let mut lo: usize = 0;
    let mut hi: usize = haystack.len();
    while lo < hi
        invariant
            lo <= hi <= haystack@.len(),
            sorted_u32(haystack@) ==> forall|j: int|
                0 <= j < haystack@.len() && haystack@[j] == needle ==> lo <= j < hi,
        decreases hi - lo,
    {
        let mid = lo + (hi - lo) / 2;
        if haystack[mid] == needle {
            return true;
        }
        if haystack[mid] > needle {
            hi = mid;
        } else {
            lo = mid + 1;
        }
    }
    false
}

} // verus!
