//! Small arithmetic helpers shared by the cost model and the worker: an
//! exact integer square root, and a rounded division used to take a
//! fixed-length step along a direction vector.

use vstd::prelude::*;

verus! {

/// `r` is the integer square root of `n`: the largest integer whose square
/// does not exceed `n`.
pub open spec fn is_isqrt(n: int, r: int) -> bool {
    &&& 0 <= r
    &&& r * r <= n
    &&& n < (r + 1) * (r + 1)
}

/// Integer square root by bisection.
pub fn isqrt(n: u64) -> (r: u64)
    requires
        n < 0x4000_0000_0000_0000,
    ensures
        is_isqrt(n as int, r as int),
        r <= 0x8000_0000,
{
    if n == 0 {
        return 0;
    }
    let mut lo: u64 = 0;
    let mut hi: u64 = 0x8000_0000;
    while hi - lo > 1
        invariant
            lo < hi <= 0x8000_0000,
            lo * lo <= n,
            n < hi * hi,
        decreases hi - lo,
    {
        let mid = lo + (hi - lo) / 2;
        proof {
            assert(mid * mid <= 0x4000_0000_0000_0000) by (nonlinear_arith)
                requires
                    0 <= mid <= 0x8000_0000,
            ;
        }
        if mid * mid <= n {
            lo = mid;
        } else {
            hi = mid;
        }
    }
    proof {
        assert(hi == lo + 1);
    }
    lo
}

/// Division rounded to the nearest integer (ties toward positive infinity),
/// for a positive divisor: `round_div(a, b) == floor((2a + b) / 2b)`.
pub open spec fn rounded_div(a: int, b: int) -> int {
    (2 * a + b) / (2 * b)
}

/// Rounded division of a (possibly negative) numerator by a positive
/// divisor, used to scale a direction vector to a fixed step length.
pub fn round_div(a: i64, b: i64) -> (q: i64)
    requires
        0 < b <= 0x1000_0000,
        -0x1000_0000_0000 <= a <= 0x1000_0000_0000,
    ensures
        q == rounded_div(a as int, b as int),
        -0x3000_0000_0000 <= q <= 0x3000_0000_0000,
{
    let num = 2 * a + b;
    let den = 2 * b;
    proof {
        let q = (num as int) / (den as int);
        vstd::arithmetic::div_mod::lemma_fundamental_div_mod(num as int, den as int);
        vstd::arithmetic::div_mod::lemma_mod_bound(num as int, den as int);
        assert(-0x3000_0000_0000 <= q <= 0x3000_0000_0000) by (nonlinear_arith)
            requires
                den * q + (num as int) % (den as int) == num,
                0 <= (num as int) % (den as int) < den,
                2 <= den <= 0x2000_0000,
                -0x2000_1000_0000 <= num <= 0x2000_1000_0000,
        ;
    }
    match num.checked_div_euclid(den) {
        Some(q) => q,
        None => 0,
    }
}

} // verus!
