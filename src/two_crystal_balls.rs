use vstd::prelude::*;

verus! {

/// Once a position holds `true`, every later position does too.
pub open spec fn breaks_from_some_height(breaks: Seq<bool>) -> bool {
    forall|i: int, j: int| 0 <= i <= j < breaks.len() && breaks[i] ==> breaks[j]
}

/// The largest `r` with `r * r <= n`.
fn integer_sqrt(n: usize) -> (r: usize)
    ensures
        r * r <= n,
        n < (r + 1) * (r + 1),
{
    let mut r: usize = 0;
    loop
        invariant
            r * r <= n,
            r < 0x1_0000_0000,
        ensures
            r * r <= n,
            n < (r + 1) * (r + 1),
        decreases n - r,
    {
        let next: u128 = r as u128 + 1;
        proof {
            assert(next * next <= 0x1_0000_0000 * 0x1_0000_0000) by (nonlinear_arith)
                requires next <= 0x1_0000_0000;
        }
        if next * next > n as u128 {
            break;
        }
        proof {
            let x = r as int + 1;
            assert(x <= n) by (nonlinear_arith)
                requires x * x <= n as int, x >= 1;
            assert(x < 0x1_0000_0000) by (nonlinear_arith)
                requires x * x <= n as int, n as int <= usize::MAX, x >= 1, usize::MAX < 0x1_0000_0000_0000_0000;
        }
        r = r + 1;
    }
    r
}

/// The lowest position holding `true`, found by probing every
/// `floor(sqrt(n))`-th position from the start until one holds `true`, then
/// walking the stretch since the previous probe one position at a time.
/// Where the values only turn from `false` to `true` once, the answer is
/// that position, or `None` when every value is `false`.
pub fn two_crystal_balls(breaks: &[bool]) -> (r: Option<usize>)
    ensures
        r matches Some(i) ==> i < breaks@.len() && breaks@[i as int],
        breaks_from_some_height(breaks@) ==> (r is None <==> !breaks@.contains(true)),
        breaks_from_some_height(breaks@) ==> (r matches Some(i) ==> forall|j: int|
            0 <= j < i ==> !breaks@[j]),
{
    let n = breaks.len();
    if n == 0 {
        return None;
    }
    let step = integer_sqrt(n);
    proof {
        assert(step == 0 ==> n < 1) by (nonlinear_arith)
            requires n < (step + 1) * (step + 1);
    }
    let mut prev: usize = 0;
    let mut probe: usize = if n - prev > step { step } else { n };
    while probe < n && !breaks[probe]
        invariant
            n == breaks@.len(),
            1 <= step,
            prev < n,
            prev + step < n ==> probe == prev + step,
            prev + step >= n ==> probe == n,
            prev > 0 ==> !breaks@[prev as int],
        decreases n - prev,
    {
        prev = probe;
        probe = if n - probe > step { probe + step } else { n };
    }
    let end = if probe < n { probe + 1 } else { n };
    let mut i = prev;
    while i < end
        invariant
            n == breaks@.len(),
            prev <= i <= end <= n,
            probe < n ==> end == probe + 1,
            probe < n ==> breaks@[probe as int],
            probe >= n ==> end == n,
            prev > 0 ==> !breaks@[prev as int],
            forall|j: int| prev <= j < i ==> !breaks@[j],
        decreases end - i,
    {
        if breaks[i] {
            proof {
                if breaks_from_some_height(breaks@) && prev > 0 {
                    assert forall|j: int| 0 <= j < prev implies !breaks@[j] by {
                        if breaks@[j] {
                            assert(breaks@[prev as int]);
                        }
                    }
                }
            }
            return Some(i);
        }
        i = i + 1;
    }
    proof {
        if breaks_from_some_height(breaks@) {
            assert forall|j: int| 0 <= j < n implies !breaks@[j] by {
                if j < prev && breaks@[j] {
                    assert(breaks@[prev as int]);
                }
            }
            assert(!breaks@.contains(true));
        }
    }
    None
}

} // verus!
