//! Integer arithmetic shared by the geometry and the grid.
use vstd::prelude::*;
use vstd::arithmetic::div_mod::{lemma_fundamental_div_mod, lemma_fundamental_div_mod_converse, lemma_mod_bound};

verus! {

/// A fixed-point coordinate or length, in world units.
pub type Scalar = i32;

/// Quotient of `a` by a positive `b`, rounded towards negative infinity.
pub fn floor_div(a: i64, b: i64) -> (q: i64)
    requires
        b > 0,
    ensures
        q == a as int / b as int,
        q * b <= a < (q + 1) * b,
{
    if a >= 0 {
        let q: i64 = a / b;
        proof {
            lemma_fundamental_div_mod(a as int, b as int);
            lemma_mod_bound(a as int, b as int);
            assert(q * b == b * q) by (nonlinear_arith);
            assert((q + 1) * b == b * q + b) by (nonlinear_arith);
        }
        q
    } else {
        let m: i64 = -(a + 1);
        let t: i64 = m / b;
        proof {
            lemma_fundamental_div_mod(m as int, b as int);
            lemma_mod_bound(m as int, b as int);
            let r = m as int % b as int;
            assert((-t - 1) * b + (b - 1 - r) == a) by (nonlinear_arith)
                requires
                    m == b * t + r,
                    a == -m - 1,
            ;
            lemma_fundamental_div_mod_converse(a as int, b as int, -t - 1, b - 1 - r);
            assert((-t - 1 + 1) * b == (-t - 1) * b + b) by (nonlinear_arith);
            assert(0 <= t) by (nonlinear_arith)
                requires
                    m == b * t + r,
                    0 <= m,
                    r < b,
                    b > 0,
            ;
        }
        -t - 1
    }
}

/// `v` limited to the range of a `Scalar`.
pub open spec fn saturated(v: int) -> int {
    if v < Scalar::MIN {
        Scalar::MIN as int
    } else if v > Scalar::MAX {
        Scalar::MAX as int
    } else {
        v
    }
}

/// Brings `v` into the range of a `Scalar`: a value beyond either end
/// becomes that end.
pub fn saturate(v: i128) -> (r: Scalar)
    ensures
        r == saturated(v as int),
{
    if v < -0x8000_0000 {
        -0x8000_0000
    } else if v > 0x7fff_ffff {
        0x7fff_ffff
    } else {
        v as i32
    }
}

/// `r` is the square root of `n`, rounded down.
pub open spec fn is_floor_sqrt(n: int, r: int) -> bool {
    0 <= r && r * r <= n < (r + 1) * (r + 1)
}

/// Square root of `n`, rounded down.
pub fn floor_sqrt(n: u64) -> (r: u64)
    ensures
        is_floor_sqrt(n as int, r as int),
        r < 0x1_0000_0000,
{
    let mut lo: u64 = 0;
    let mut hi: u64 = 0x1_0000_0000;
    assert(lo * lo <= n < hi * hi) by (nonlinear_arith)
        requires
            lo == 0,
            hi == 0x1_0000_0000,
            n <= u64::MAX,
    ;
    while hi - lo > 1
        invariant
            lo < hi <= 0x1_0000_0000,
            lo * lo <= n < hi * hi,
        decreases hi - lo,
    {
        let mid: u64 = lo + (hi - lo) / 2;
        assert(0 <= mid * mid < 0x1_0000_0000 * 0x1_0000_0000) by (nonlinear_arith)
            requires
                0 <= mid < 0x1_0000_0000,
        ;
        let sq: u128 = (mid as u128) * (mid as u128);
        if sq <= n as u128 {
            lo = mid;
        } else {
            hi = mid;
        }
    }
    lo
}

} // verus!
