//! Sine, cosine and the sinc kernel in Q16 fixed point.
//!
//! Angles are measured in turns: a phase of 65536 is one full cycle.
//! The first quarter wave is a fifth-order odd polynomial; the other
//! quadrants follow by folding. `sinc_pi` evaluates `sin(pi x) / (pi x)`
//! with the small-angle series below `|pi x| < 0.01`, mirroring the
//! resampler's interpolation kernel.

use crate::fixed::{div_floor, lemma_div_range, lemma_mul_bound, q_mul};
use vstd::arithmetic::div_mod::lemma_div_is_ordered;
use vstd::prelude::*;

verus! {

/// Quarter-wave sine: `sin((pi/2) * (u / 65536))` in Q16 for
/// `u` in [0, 65536], clamped so full scale is exactly 65536.
pub open spec fn sin_quarter_q16(u: int) -> int {
    let u2 = q_mul(u, u);
    let p1 = 42159 - q_mul(u2, 4766);
    let p0 = 102940 - q_mul(u2, p1);
    let s = q_mul(u, p0);
    if s > 65536 {
        65536
    } else {
        s
    }
}

/// Full-cycle sine by quadrant folding: `sin(2 pi * (p / 65536))`
/// in Q16 for a phase `p` in [0, 65536).
pub open spec fn sin_phase_q16(p: int) -> int {
    let q = p / 16384;
    let r = p % 16384;
    if q == 0 {
        sin_quarter_q16(4 * r)
    } else if q == 1 {
        sin_quarter_q16(65536 - 4 * r)
    } else if q == 2 {
        -sin_quarter_q16(4 * r)
    } else {
        -sin_quarter_q16(65536 - 4 * r)
    }
}

/// Sine of a phase measured in turns, any number of cycles.
pub open spec fn sin_turn_q16(p: int) -> int {
    sin_phase_q16(p % 65536)
}

/// Cosine as the sine a quarter turn ahead.
pub open spec fn cos_turn_q16(p: int) -> int {
    sin_phase_q16((p + 16384) % 65536)
}

/// `sin(pi d) / (pi d)` in Q16 for a nonnegative Q16 distance `d`,
/// with the Taylor fallback `1 - (pi d)^2 / 6` near zero.
pub open spec fn sinc_pi_q16(d: int) -> int {
    let x = (d * 205887) / 65536;
    if x < 655 {
        65536 - ((x * x) / 65536) / 6
    } else {
        crate::fixed::floor_div(sin_phase_q16((d % 131072) / 2) * 65536, x)
    }
}

/// The quarter-wave polynomial stays within [0, 65536] on its domain.
pub proof fn lemma_sin_quarter_range(u: int)
    requires
        0 <= u <= 65536,
    ensures
        0 <= sin_quarter_q16(u) <= 65536,
{
    lemma_mul_bound(u, u, 65536, 65536);
    assert(u * u >= 0) by (nonlinear_arith)
        requires u >= 0;
    lemma_div_range(u * u, 65536, 0, 65536int * 65536int);
    lemma_div_is_ordered(u * u, 65536int * 65536int, 65536);
    let u2 = q_mul(u, u);
    assert(u2 * 4766 >= 0) by (nonlinear_arith)
        requires u2 >= 0;
    lemma_mul_bound(u2, 4766, 65536, 4766);
    lemma_div_range(u2 * 4766, 65536, 0, 65536int * 4766int);
    lemma_div_is_ordered(u2 * 4766, 65536int * 4766int, 65536);
    let p1 = 42159 - q_mul(u2, 4766);
    assert(u2 * p1 >= 0) by (nonlinear_arith)
        requires u2 >= 0 && p1 >= 0;
    lemma_mul_bound(u2, p1, 65536, 42159);
    lemma_div_range(u2 * p1, 65536, 0, 65536int * 42159int);
    lemma_div_is_ordered(u2 * p1, 65536int * 42159int, 65536);
    let p0 = 102940 - q_mul(u2, p1);
    assert(u * p0 >= 0) by (nonlinear_arith)
        requires u >= 0 && p0 >= 0;
    lemma_mul_bound(u, p0, 65536, 102940);
    lemma_div_range(u * p0, 65536, 0, 65536int * 102940int);
}

/// The full-cycle sine stays within [-65536, 65536] for phases inside
/// one turn.
pub proof fn lemma_sin_phase_range(p: int)
    requires
        0 <= p < 65536,
    ensures
        -65536 <= sin_phase_q16(p) <= 65536,
{
    let r = p % 16384;
    lemma_div_range(p, 16384, 0, 65535);
    lemma_sin_quarter_range(4 * r);
    lemma_sin_quarter_range(65536 - 4 * r);
}

/// Executable quarter-wave sine; exact value of `sin_quarter_q16`.
pub fn sin_quarter(u: i64) -> (r: i64)
    requires
        0 <= u <= 65536,
    ensures
        r == sin_quarter_q16(u as int),
        0 <= r <= 65536,
{
    proof {
        lemma_mul_bound(u as int, u as int, 65536, 65536);
        lemma_div_range(u as int * u as int, 65536, 0, 65536int * 65536int);
        lemma_div_is_ordered(u as int * u as int, 65536int * 65536int, 65536);
    }
    let u2 = crate::fixed::qmul(u, u);
    proof {
        lemma_mul_bound(u2 as int, 4766, 65536, 4766);
        lemma_div_range(u2 as int * 4766, 65536, 0, 65536int * 4766int);
        lemma_div_is_ordered(u2 as int * 4766, 65536int * 4766int, 65536);
    }
    let t1 = crate::fixed::qmul(u2, 4766);
    let p1 = 42159 - t1;
    proof {
        lemma_mul_bound(u2 as int, p1 as int, 65536, 42159);
        lemma_div_range(u2 as int * p1 as int, 65536, 0, 65536int * 42159int);
        lemma_div_is_ordered(u2 as int * p1 as int, 65536int * 42159int, 65536);
    }
    let t2 = crate::fixed::qmul(u2, p1);
    let p0 = 102940 - t2;
    proof {
        lemma_mul_bound(u as int, p0 as int, 65536, 102940);
        lemma_div_range(u as int * p0 as int, 65536, 0, 65536int * 102940int);
        lemma_div_is_ordered(u as int * p0 as int, 65536int * 102940int, 65536);
    }
    let s = crate::fixed::qmul(u, p0);
    if s > 65536 {
        65536
    } else {
        proof {
            assert(u as int * p0 as int >= 0) by (nonlinear_arith)
                requires u >= 0 && p0 as int >= 0;
            lemma_div_range(u as int * p0 as int, 65536, 0, 65536int * 102940int);
        }
        s
    }
}

/// Executable full-cycle sine; exact value of `sin_phase_q16`.
pub fn sin_phase(p: i64) -> (r: i64)
    requires
        0 <= p < 65536,
    ensures
        r == sin_phase_q16(p as int),
        -65536 <= r <= 65536,
{
    let pu = p as u64;
    let q = pu / 16384;
    let r = (pu % 16384) as i64;
    if q == 0 {
        sin_quarter(4 * r)
    } else if q == 1 {
        sin_quarter(65536 - 4 * r)
    } else if q == 2 {
        -sin_quarter(4 * r)
    } else {
        -sin_quarter(65536 - 4 * r)
    }
}

/// Executable sine over whole turns; exact value of `sin_turn_q16`.
pub fn sin_turn(p: i64) -> (r: i64)
    requires
        0 <= p <= 0x20000000,
    ensures
        r == sin_turn_q16(p as int),
        -65536 <= r <= 65536,
{
    let m = ((p as u64) % 65536) as i64;
    sin_phase(m)
}

/// Executable cosine over whole turns; exact value of `cos_turn_q16`.
pub fn cos_turn(p: i64) -> (r: i64)
    requires
        0 <= p <= 0x20000000,
    ensures
        r == cos_turn_q16(p as int),
        -65536 <= r <= 65536,
{
    let m = (((p + 16384) as u64) % 65536) as i64;
    sin_phase(m)
}

/// Executable sinc kernel; exact value of `sinc_pi_q16`.
pub fn sinc_pi(d: i64) -> (r: i64)
    requires
        0 <= d <= 0x100000,
    ensures
        r == sinc_pi_q16(d as int),
        -0x100000000 <= r <= 0x100000000,
{
    proof {
        lemma_div_range(d as int * 205887, 65536, 0, 0x100000int * 205887int);
    }
    let x = (d * 205887) / 0x10000;
    proof {
        assert(x == (d as int * 205887) / 65536) by {
            lemma_div_range(d as int * 205887, 65536, 0, 0x100000int * 205887int);
        }
    }
    if x < 655 {
        proof {
            lemma_mul_bound(x as int, x as int, 655, 655);
            lemma_div_range(x as int * x as int, 65536, 0, 655int * 655int);
            lemma_div_range(x as int * x as int / 65536, 6, 0, 655int * 655int);
        }
        let t = ((x * x) / 0x10000) / 6;
        65536 - t
    } else {
        let m = (((d as u64) % 131072) / 2) as i64;
        let s = sin_phase(m);
        let num = s * 65536;
        let r = div_floor(num, x);
        proof {
            lemma_div_range(num as int, x as int, -0x100000000, 0x100000000);
        }
        r
    }
}

} // verus!
