//! Base-two logarithm and decibel conversion in Q16 fixed point.
//!
//! `log2_q16` normalizes its argument into [2^30, 2^31), then extracts
//! sixteen fractional bits by repeated squaring. Decibel values follow as
//! `10 * log10(x) = (log2(x) * 10 * log10(2))`, with an exact -100 dB
//! floor standing in for the logarithm of zero.

use crate::fixed::{div_floor, lemma_div_range, lemma_mul_bound};
use vstd::arithmetic::div_mod::lemma_div_is_ordered;
use vstd::prelude::*;

verus! {

/// `10 * log10(2)` in Q16.
pub const DB_PER_OCTAVE: i64 = 197283;

/// Decibel value reported for a zero signal: -100 dB in Q16.
pub const DB_FLOOR: i64 = -6553600;

/// Two to the power `n`, as a plain integer (1 for `n <= 0`).
pub open spec fn p2(n: int) -> int
    decreases n,
{
    if n <= 0 {
        1
    } else {
        2 * p2(n - 1)
    }
}

/// Doubling normalization: brings a value in [1, 2^30) up into
/// [2^30, 2^31), returning the normalized value and the Q16 exponent
/// offset (one whole octave, -65536, per doubling).
pub open spec fn norm_up(y: int) -> (int, int)
    decreases 0x80000000 - y,
{
    if 1 <= y < 0x40000000 {
        let (z, e) = norm_up(2 * y);
        (z, e - 65536)
    } else {
        (y, 0)
    }
}

/// Halving normalization: brings a value at or above 2^31 down into
/// [2^30, 2^31), adding one octave per halving.
pub open spec fn norm_down(y: int) -> (int, int)
    decreases y,
{
    if y >= 0x80000000 {
        let (z, e) = norm_down(y / 2);
        (z, e + 65536)
    } else {
        (y, 0)
    }
}

/// Sixteen fractional log2 bits of a value normalized to [2^30, 2^31),
/// extracted most significant first by squaring.
pub open spec fn frac_bits(y: int, n: nat) -> int
    decreases n,
{
    if n == 0 {
        0
    } else {
        let y2 = (y * y) / 0x40000000;
        if y2 >= 0x80000000 {
            p2(n - 1) + frac_bits(y2 / 2, (n - 1) as nat)
        } else {
            frac_bits(y2, (n - 1) as nat)
        }
    }
}

/// Base-two logarithm of `m >= 1` in Q16.
pub open spec fn log2_q16_spec(m: int) -> int {
    if m < 0x40000000 {
        let (y, e) = norm_up(m);
        1966080 + e + frac_bits(y, 16)
    } else {
        let (y, e) = norm_down(m);
        1966080 + e + frac_bits(y, 16)
    }
}

proof fn lemma_norm_up_range(y: int, k: nat)
    requires
        1 <= y < 0x80000000,
        p2(30 - k as int) <= y,
    ensures
        0x40000000 <= norm_up(y).0 < 0x80000000,
        -65536 * k <= norm_up(y).1 <= 0,
    decreases 0x80000000 - y,
{
    if y < 0x40000000 {
        assert(k >= 1) by {
            if k == 0 {
                reveal_with_fuel(p2, 31);
            }
        }
        assert(p2(30 - (k - 1) as int) <= 2 * y) by {
            if 31 - k as int >= 1 {
                assert(p2(31 - k as int) == 2 * p2(30 - k as int));
            }
        }
        lemma_norm_up_range(2 * y, (k - 1) as nat);
    }
}

proof fn lemma_norm_down_range(y: int, k: nat)
    requires
        0x40000000 <= y,
        y < p2(31 + k as int),
    ensures
        0x40000000 <= norm_down(y).0 < 0x80000000,
        0 <= norm_down(y).1 <= 65536 * k,
    decreases y,
{
    if y >= 0x80000000 {
        assert(k >= 1) by {
            if k == 0 {
                reveal_with_fuel(p2, 32);
            }
        }
        lemma_norm_down_range(y / 2, (k - 1) as nat);
    }
}

proof fn lemma_frac_bits_range(y: int, n: nat)
    requires
        0 <= y,
    ensures
        0 <= frac_bits(y, n) < p2(n as int),
    decreases n,
{
    if n > 0 {
        let y2 = (y * y) / 0x40000000;
        assert(y * y >= 0) by (nonlinear_arith)
            requires y >= 0;
        lemma_div_range(y * y, 0x40000000, 0, y * y);
        if y2 >= 0x80000000 {
            lemma_frac_bits_range(y2 / 2, (n - 1) as nat);
        } else {
            lemma_frac_bits_range(y2, (n - 1) as nat);
        }
    }
}

/// The normalized value and the sixteen squaring steps, as one
/// executable function: returns exactly `log2_q16_spec(m)`.
pub fn log2_q16(m: i64) -> (r: i64)
    requires
        1 <= m <= 0x100000000000000,
    ensures
        r == log2_q16_spec(m as int),
        -65536 * 31 <= r <= 65536 * 62,
{
    let mut y: i64 = m;
    let mut e: i64 = 0;
    let ghost (yn, en) = if m < 0x40000000 {
        norm_up(m as int)
    } else {
        norm_down(m as int)
    };
    proof {
        if m < 0x40000000 {
            lemma_norm_up_range(m as int, 30);
        } else {
            reveal_with_fuel(p2, 58);
            lemma_norm_down_range(m as int, 26);
        }
    }
    if m < 0x40000000 {
        while y < 0x40000000
            invariant
                1 <= y < 0x80000000,
                norm_up(y as int).0 == yn,
                e + norm_up(y as int).1 == en,
                0x40000000 <= yn < 0x80000000,
                -65536 * 31 <= en <= 0,
            decreases 0x80000000 - y,
        {
            proof {
                lemma_norm_up_range(y as int, 30);
                lemma_norm_up_range(2 * y as int, 30);
            }
            y = y * 2;
            e = e - 65536;
        }
        proof {
            assert(y == yn && e == en);
        }
    } else {
        while y >= 0x80000000
            invariant
                0x40000000 <= y <= 0x100000000000000,
                norm_down(y as int).0 == yn,
                e + norm_down(y as int).1 == en,
                0x40000000 <= yn < 0x80000000,
                0 <= en <= 65536 * 26,
                0 <= e <= 65536 * 26,
            decreases y,
        {
            proof {
                reveal_with_fuel(p2, 58);
                lemma_norm_down_range(y as int, 26);
                lemma_norm_down_range(y as int / 2, 26);
            }
            y = y / 2;
            e = e + 65536;
        }
        proof {
            assert(y == yn && e == en);
        }
    }
    let mut frac: i64 = 0;
    let ghost ftotal = frac_bits(yn as int, 16);
    proof {
        lemma_frac_bits_range(yn as int, 16);
        reveal_with_fuel(p2, 17);
    }
    let mut i: usize = 0;
    while i < 16
        invariant
            0 <= i <= 16,
            0x40000000 <= y < 0x80000000,
            frac + frac_bits(y as int, (16 - i) as nat) == ftotal,
            0 <= frac,
            0 <= ftotal < 65536,
        decreases 16 - i,
    {
        proof {
            assert(0x40000000int * 0x40000000int <= y as int * y as int
                <= 0x7fffffffint * 0x7fffffffint) by (nonlinear_arith)
                requires 0x40000000 <= y as int <= 0x7fffffff;
            lemma_div_is_ordered(0x40000000int * 0x40000000int, y as int * y as int,
                0x40000000);
            lemma_div_is_ordered(y as int * y as int, 0x7fffffffint * 0x7fffffffint,
                0x40000000);
            assert(0x40000000int * 0x40000000int / 0x40000000int == 0x40000000);
            assert(0x7fffffffint * 0x7fffffffint / 0x40000000int < 0x100000000int);
        }
        let sq: i64 = y * y;
        let y2: i64 = sq / 0x40000000;
        proof {
            lemma_div_range(sq as int, 0x40000000, 0, sq as int);
            assert(sq as int / 0x40000000int == y2 as int);
            lemma_frac_bits_range(y2 as int, (15 - i) as nat);
            lemma_frac_bits_range(y2 as int / 2, (15 - i) as nat);
            lemma_p2_mono(15 - i, 15);
        }
        if y2 >= 0x80000000 {
            proof {
                lemma_div_range(y2 as int, 2, 0, y2 as int);
            }
            frac = frac + pow2_i64(15 - i as i64);
            y = y2 / 2;
        } else {
            y = y2;
        }
        i = i + 1;
    }
    proof {
        assert(frac_bits(y as int, 0) == 0);
    }
    1966080 + e + frac
}

/// Two to the power `n` for `0 <= n <= 62`, matching `p2`.
fn pow2_i64(n: i64) -> (r: i64)
    requires
        0 <= n <= 62,
    ensures
        r == p2(n as int),
        1 <= r,
{
    let mut r: i64 = 1;
    let mut i: i64 = 0;
    proof {
        lemma_p2_mono(0, n as int);
        lemma_p2_mono(n as int, 62);
        reveal_with_fuel(p2, 63);
    }
    while i < n
        invariant
            0 <= i <= n <= 62,
            r == p2(i as int),
            r <= p2(n as int) <= 0x4000000000000000,
        decreases n - i,
    {
        proof {
            lemma_p2_mono(i as int + 1, n as int);
        }
        r = r * 2;
        i = i + 1;
    }
    r
}

proof fn lemma_p2_mono(a: int, b: int)
    requires
        0 <= a <= b,
    ensures
        p2(a) <= p2(b),
        1 <= p2(a),
    decreases b,
{
    if a < b {
        lemma_p2_mono(a, b - 1);
    } else {
        lemma_p2_pos(a);
    }
}

proof fn lemma_p2_pos(a: int)
    ensures
        1 <= p2(a),
    decreases a,
{
    if a > 0 {
        lemma_p2_pos(a - 1);
    }
}


/// Decibel value of a nonnegative fixed-point ratio whose unit value is
/// `2^ref_bits`: `(log2(v) - ref_bits) * 10 * log10(2)` in Q16, with the
/// -100 dB floor standing in for a zero signal.
pub open spec fn db_of_spec(v: int, ref_bits: int) -> int {
    if v <= 0 {
        DB_FLOOR as int
    } else {
        ((log2_q16_spec(v) - ref_bits * 65536) * DB_PER_OCTAVE) / 65536
    }
}

/// Executable decibel conversion; exact value of `db_of_spec`.
pub fn db_of(v: i64, ref_bits: i64) -> (r: i64)
    requires
        v <= 0x100000000000000,
        0 <= ref_bits <= 32,
    ensures
        r == db_of_spec(v as int, ref_bits as int),
        -0x100000000000 <= r <= 0x100000000000,
{
    if v <= 0 {
        proof {
            assert(DB_FLOOR >= -0x100000000000);
        }
        DB_FLOOR
    } else {
        let l = log2_q16(v);
        let num = (l - ref_bits * 65536) * DB_PER_OCTAVE;
        proof {
            lemma_mul_bound((l - ref_bits * 65536) as int, DB_PER_OCTAVE as int,
                65536int * 94, 197283);
            lemma_div_range(num as int, 65536, -0x100000000000int * 65536,
                0x100000000000int * 65536);
        }
        div_floor(num, 65536)
    }
}

} // verus!
