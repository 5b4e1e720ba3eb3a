use vstd::prelude::*;

verus! {

/// Whether `needle` occurs in `haystack`, checking each position in turn.
pub fn linear_search(haystack: &Vec<u32>, needle: u32) -> (r: bool)
    ensures
        r == haystack@.contains(needle),
{
    let mut i: usize = 0;
    while i < haystack.len()
        invariant
            i <= haystack@.len(),
            forall|j: int| 0 <= j < i ==> haystack@[j] != needle,
        decreases haystack@.len() - i,
    {
        if haystack[i] == needle {
            return true;
        }
        i = i + 1;
    }
    false
}

} // verus!
