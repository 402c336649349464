//! Q16 fixed-point arithmetic: multiplication, floor division, and an
//! integer square root. Every executable function returns exactly the
//! value of its spec-level counterpart.

use vstd::arithmetic::div_mod::{
    lemma_div_is_ordered, lemma_fundamental_div_mod, lemma_fundamental_div_mod_converse,
};
use vstd::prelude::*;

verus! {

/// One in Q16 fixed point.
pub const SCALE: i64 = 65536;

/// Floor of `a / b` over the integers, defined for any nonzero divisor.
/// For a positive divisor this is Euclidean division itself.
pub open spec fn floor_div(a: int, b: int) -> int {
    if b >= 0 {
        a / b
    } else {
        (-a) / (-b)
    }
}

/// Q16 product: `(a * b) / 65536`, rounded toward negative infinity.
pub open spec fn q_mul(a: int, b: int) -> int {
    (a * b) / 65536
}

/// `v` clamped into `[lo, hi]`.
pub open spec fn clamp_i(v: int, lo: int, hi: int) -> int {
    if v < lo {
        lo
    } else if v > hi {
        hi
    } else {
        v
    }
}

/// Product bound: factors bounded in magnitude bound the product.
pub proof fn lemma_mul_bound(a: int, b: int, aa: int, bb: int)
    by (nonlinear_arith)
    requires
        -aa <= a <= aa,
        -bb <= b <= bb,
        0 <= aa,
        0 <= bb,
    ensures
        -(aa * bb) <= a * b <= aa * bb,
{
}

/// Euclidean division by a positive divisor stays inside any range
/// around zero that holds the dividend.
pub proof fn lemma_div_range(a: int, b: int, lo: int, hi: int)
    requires
        b >= 1,
        lo <= a <= hi,
        lo <= 0 <= hi,
    ensures
        lo <= a / b <= hi,
{
    lemma_fundamental_div_mod(a, b);
    let d = a / b;
    let m = a % b;
    assert(lo <= d <= hi) by (nonlinear_arith)
        requires b >= 1 && a == b * d + m && 0 <= m < b && lo <= a <= hi && lo <= 0 <= hi;
}

/// Floor division of an `i128` by a positive divisor.
pub fn div_floor_i128(a: i128, b: i128) -> (r: i128)
    requires
        1 <= b,
        -0x40000000000000000000000000000000 < a,
    ensures
        r == a as int / b as int,
{
    if a >= 0 {
        let q = (a as u128) / (b as u128);
        assert(q == a as int / b as int);
        q as i128
    } else {
        let m = (-a) as u128;
        let q = m / (b as u128);
        let rem = m % (b as u128);
        proof {
            lemma_fundamental_div_mod(m as int, b as int);
            if rem == 0 {
                assert(a as int == (-(q as int)) * b + 0) by (nonlinear_arith)
                    requires m == q * b && a as int == -(m as int);
                lemma_fundamental_div_mod_converse(a as int, b as int, -(q as int), 0);
            } else {
                assert(a as int == (-(q as int) - 1) * b + (b - rem)) by (nonlinear_arith)
                    requires m == q * b + rem && a as int == -(m as int);
                lemma_fundamental_div_mod_converse(
                    a as int, b as int, -(q as int) - 1, b as int - rem as int);
            }
        }
        if rem == 0 {
            -(q as i128)
        } else {
            -(q as i128) - 1
        }
    }
}

/// Floor division of an `i64` by a positive divisor.
pub fn div_floor(a: i64, b: i64) -> (r: i64)
    requires
        1 <= b,
    ensures
        r == a as int / b as int,
{
    proof {
        lemma_div_range(a as int, b as int, -0x8000000000000000, 0x7fffffffffffffff);
    }
    let q = div_floor_i128(a as i128, b as i128);
    q as i64
}

/// Q16 multiplication; exact floor semantics of `q_mul`.
pub fn qmul(a: i64, b: i64) -> (r: i64)
    requires
        -0x8000000000 <= a <= 0x8000000000,
        -0x8000000000 <= b <= 0x8000000000,
    ensures
        r == q_mul(a as int, b as int),
        -0x4000000000000000 <= r <= 0x4000000000000000,
{
    proof {
        lemma_mul_bound(a as int, b as int, 0x8000000000, 0x8000000000);
        lemma_div_is_ordered(a as int * b as int, 0x40000000000000000000, 65536);
        lemma_div_is_ordered(-0x40000000000000000000, a as int * b as int, 65536);
        assert(0x40000000000000000000int / 65536 == 0x4000000000000000);
        assert(-0x40000000000000000000int / 65536 == -0x4000000000000000);
    }
    let p = (a as i128) * (b as i128);
    let q = div_floor_i128(p, 65536);
    q as i64
}

/// Integer square root: the greatest `r` with `r * r <= x`.
pub fn isqrt(x: u128) -> (r: u64)
    requires
        x < 0x1000000000000000000000000,
    ensures
        r as int * r as int <= x < (r as int + 1) * (r as int + 1),
        r <= 0x1000000000000,
{
    let mut lo: u64 = 0;
    let mut hi: u64 = 0x1000000000000;
    proof {
        assert((hi as int) * (hi as int) > x);
    }
    while lo + 1 < hi
        invariant
            lo < hi <= 0x1000000000000,
            lo as int * lo as int <= x,
            x < hi as int * hi as int,
        decreases hi - lo,
    {
        let mid = lo + (hi - lo) / 2;
        proof {
            lemma_mul_bound(mid as int, mid as int, 0x1000000000000, 0x1000000000000);
        }
        if (mid as u128) * (mid as u128) <= x {
            lo = mid;
        } else {
            hi = mid;
        }
    }
    lo
}

} // verus!
