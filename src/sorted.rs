use vstd::prelude::*;
use vstd::seq_lib::{lemma_multiset_commutative, to_multiset_contains, to_multiset_update};
use vstd::multiset::group_multiset_axioms;

verus! {

/// The values never decrease from one position to the next.
pub open spec fn is_sorted(s: Seq<i32>) -> bool {
    forall|i: int, j: int| 0 <= i <= j < s.len() ==> s[i] <= s[j]
}

/// The values at positions `lo..hi` never decrease.
pub open spec fn sorted_between(s: Seq<i32>, lo: int, hi: int) -> bool {
    forall|i: int, j: int| lo <= i <= j < hi ==> s[i] <= s[j]
}

/// `b` is `a` with the values at positions `lo..hi` rearranged among
/// themselves and every other position left as it was.
pub open spec fn permuted_within(a: Seq<i32>, b: Seq<i32>, lo: int, hi: int) -> bool {
    &&& a.len() == b.len()
    &&& 0 <= lo <= hi <= a.len()
    &&& forall|k: int| 0 <= k < a.len() && !(lo <= k < hi) ==> a[k] == b[k]
    &&& a.subrange(lo, hi).to_multiset() == b.subrange(lo, hi).to_multiset()
}

/// Rearranging a stretch inside a larger stretch rearranges the larger one.
pub proof fn lemma_permuted_widen(
    a: Seq<i32>,
    b: Seq<i32>,
    lo: int,
    hi: int,
    lo2: int,
    hi2: int,
)
    requires
        permuted_within(a, b, lo2, hi2),
        0 <= lo <= lo2,
        hi2 <= hi <= a.len(),
    ensures
        permuted_within(a, b, lo, hi),
{
    broadcast use lemma_multiset_commutative;

    assert(a.subrange(lo, hi) =~= a.subrange(lo, lo2) + a.subrange(lo2, hi2) + a.subrange(hi2, hi));
    assert(b.subrange(lo, hi) =~= b.subrange(lo, lo2) + b.subrange(lo2, hi2) + b.subrange(hi2, hi));
    assert(a.subrange(lo, lo2) =~= b.subrange(lo, lo2));
    assert(a.subrange(hi2, hi) =~= b.subrange(hi2, hi));
}

/// Two rearrangements of one stretch make a rearrangement of it.
pub proof fn lemma_permuted_chain(a: Seq<i32>, b: Seq<i32>, c: Seq<i32>, lo: int, hi: int)
    requires
        permuted_within(a, b, lo, hi),
        permuted_within(b, c, lo, hi),
    ensures
        permuted_within(a, c, lo, hi),
{
}

/// A bound that holds of every value in a stretch holds after the stretch
/// is rearranged.
pub proof fn lemma_permuted_bounds(a: Seq<i32>, b: Seq<i32>, lo: int, hi: int, low: int, high: int)
    requires
        permuted_within(a, b, lo, hi),
        forall|k: int| lo <= k < hi ==> low <= #[trigger] a[k] <= high,
    ensures
        forall|k: int| lo <= k < hi ==> low <= #[trigger] b[k] <= high,
{
    broadcast use to_multiset_contains;

    assert forall|k: int| lo <= k < hi implies low <= #[trigger] b[k] <= high by {
        let x = b[k];
        assert(b.subrange(lo, hi)[k - lo] == x);
        assert(b.subrange(lo, hi).contains(x));
        assert(a.subrange(lo, hi).to_multiset().contains(x));
        assert(a.subrange(lo, hi).contains(x));
        let j = choose|j: int| 0 <= j < hi - lo && a.subrange(lo, hi)[j] == x;
        assert(a[lo + j] == x);
    }
}

proof fn lemma_swap_multiset(s: Seq<i32>, i: int, j: int)
    requires
        0 <= i < s.len(),
        0 <= j < s.len(),
    ensures
        s.update(i, s[j]).update(j, s[i]).to_multiset() == s.to_multiset(),
{
    broadcast use to_multiset_update, to_multiset_contains, group_multiset_axioms;

    let s1 = s.update(i, s[j]);
    let m = s.to_multiset();
    assert(s.contains(s[i]));
    assert(s1[j] == s[j]);
    assert(m.insert(s[j]).remove(s[i]).insert(s[i]).remove(s[j]) =~= m);
}

/// Exchanges the values at positions `i` and `j`.
pub fn swap_items(v: &mut Vec<i32>, i: usize, j: usize)
    requires
        i < old(v)@.len(),
        j < old(v)@.len(),
    ensures
        final(v)@ == old(v)@.update(i as int, old(v)@[j as int]).update(j as int, old(v)@[i as int]),
        final(v)@.to_multiset() == old(v)@.to_multiset(),
        forall|lo: int, hi: int| 0 <= lo <= i < hi <= old(v)@.len() && lo <= j < hi ==>
            #[trigger] permuted_within(old(v)@, final(v)@, lo, hi),
{
    let a = v[i];
    let b = v[j];
    v.set(i, b);
    v.set(j, a);
    proof {
        lemma_swap_multiset(old(v)@, i as int, j as int);
        assert forall|lo: int, hi: int| 0 <= lo <= i < hi <= v@.len() && lo <= j < hi implies
            #[trigger] permuted_within(old(v)@, v@, lo, hi) by {
            let s = old(v)@.subrange(lo, hi);
            assert(v@.subrange(lo, hi) =~= s.update(i - lo, s[j - lo]).update(j - lo, s[i - lo]));
            lemma_swap_multiset(s, i - lo, j - lo);
        }
    }
}

} // verus!
