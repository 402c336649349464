//! Stateless windowed-sinc resampler.
//!
//! Each output sample at rate `to_rate` maps back to a fractional
//! source position at rate `from_rate`; source samples within a window
//! radius of eight contribute, weighted by a Lanczos-windowed sinc, and
//! the weighted sum is normalized by the total weight so edge-clipped
//! windows stay unbiased.

use crate::fixed::{clamp_i, div_floor, div_floor_i128, lemma_div_range, lemma_mul_bound,
    q_mul};
use crate::trig::{sinc_pi, sinc_pi_q16};
use crate::{samples_ok, MAX_INPUT_LEN, SAMPLE_LIMIT};
use vstd::arithmetic::div_mod::{lemma_div_is_ordered, lemma_fundamental_div_mod};
use vstd::arithmetic::mul::lemma_mul_inequality;
use vstd::prelude::*;

verus! {

/// Window radius, in samples.
pub const WINDOW: i64 = 8;

/// Output magnitude bound: normalization by a tiny positive weight sum
/// is floored here rather than overflowing.
pub const OUT_LIMIT: i64 = 0x10000000000;

/// Output length: `len * to / from`, rounded half up.
pub open spec fn resample_len(len: int, from: int, to: int) -> int {
    (2 * len * to + from) / (2 * from)
}

/// Interpolation weight of a source sample at Q16 distance `d >= 0`
/// from the exact source position: sinc times its Lanczos window,
/// zero outside the window radius.
pub open spec fn weight_at(d: int) -> int {
    if d >= 524288 {
        0
    } else {
        q_mul(sinc_pi_q16(d), sinc_pi_q16(d / 8))
    }
}

/// Nonnegative distance.
pub open spec fn iabs(d: int) -> int {
    if d < 0 {
        -d
    } else {
        d
    }
}

/// Weighted sample sum and weight sum over source indices `[lo, j)`
/// around the Q16 source position `pos`.
pub open spec fn conv_sums(s: Seq<i64>, pos: int, lo: int, j: int) -> (int, int)
    decreases j - lo,
{
    if j <= lo {
        (0, 0)
    } else {
        let prev = conv_sums(s, pos, lo, j - 1);
        let w = weight_at(iabs((j - 1) * 65536 - pos));
        (prev.0 + s[j - 1] * w, prev.1 + w)
    }
}

/// Output sample `i`: the normalized convolution around the source
/// position `i * from / to`, the weight sum floored at one epsilon
/// unit, the result saturated at `OUT_LIMIT`. The weighted sum carries
/// two Q16 factors, so dividing by the Q16 weight sum returns a plain
/// Q16 sample.
pub open spec fn resample_at(s: Seq<i64>, from: int, to: int, i: int) -> int {
    let pos = (i * from * 65536) / to;
    let src = pos / 65536;
    let lo = if src >= 8 {
        src - 8
    } else {
        0
    };
    let hi = if src + 8 <= s.len() {
        src + 8
    } else {
        s.len() as int
    };
    let sums = conv_sums(s, pos, lo, hi);
    let den = if sums.1 < 1 {
        1
    } else {
        sums.1
    };
    clamp_i(sums.0 / den, -OUT_LIMIT as int, OUT_LIMIT as int)
}

/// Rate conversion of a whole buffer; pure, no state.
pub fn resample(samples: &Vec<i64>, from_rate: u32, to_rate: u32) -> (r: Vec<i64>)
    requires
        samples_ok(samples@),
        samples@.len() <= MAX_INPUT_LEN,
        1 <= from_rate <= 1000000,
        1 <= to_rate <= 1000000,
        resample_len(samples@.len() as int, from_rate as int, to_rate as int) <= 0x8000000,
    ensures
        r@.len() == resample_len(samples@.len() as int, from_rate as int, to_rate as int),
        forall|i: int| 0 <= i < r@.len()
            ==> #[trigger] r@[i] == resample_at(samples@, from_rate as int, to_rate as int, i),
{
    let ghost s = samples@;
    let len = samples.len();
    let fr = from_rate as u64;
    let to = to_rate as u64;
    proof {
        lemma_mul_bound(2 * len as int, to as int, 2 * MAX_INPUT_LEN as int, 1000000);
        lemma_div_range(2 * (len as int) * (to as int) + fr as int, 2 * fr as int, 0,
            2 * MAX_INPUT_LEN as int * 1000000 + 1000000);
    }
    let new_len_u = (2 * (len as u64) * to + fr) / (2 * fr);
    let new_len = new_len_u as usize;
    let mut out: Vec<i64> = Vec::new();
    let mut i: usize = 0;
    while i < new_len
        invariant
            s == samples@,
            samples_ok(s),
            s.len() == len <= MAX_INPUT_LEN,
            1 <= from_rate <= 1000000,
            1 <= to_rate <= 1000000,
            new_len == resample_len(len as int, from_rate as int, to_rate as int),
            new_len <= 0x8000000,
            0 <= i <= new_len,
            out@.len() == i,
            forall|t: int| 0 <= t < i
                ==> #[trigger] out@[t] == resample_at(s, from_rate as int, to_rate as int, t),
        decreases new_len - i,
    {
        proof {
            lemma_index_maps_inside(len as int, from_rate as int, to_rate as int, i as int);
            lemma_mul_bound(len as int, to_rate as int, MAX_INPUT_LEN as int, 1000000);
            assert(0 <= i as int * from_rate as int) by (nonlinear_arith)
                requires 0 <= i as int && 1 <= from_rate as int;
            lemma_div_range(i as int * from_rate as int * 65536, to_rate as int, 0,
                MAX_INPUT_LEN as int * 1000000 * 65536);
            lemma_div_is_ordered(i as int * from_rate as int * 65536,
                len as int * to_rate as int * 65536, to_rate as int);
            assert(len as int * to_rate as int * 65536
                == (len as int * 65536) * to_rate as int) by (nonlinear_arith);
            lemma_div_exact_mul(len as int * 65536, to_rate as int);
        }
        let posq = div_floor_i128(
            (i as i128) * (from_rate as i128) * 65536, to_rate as i128);
        let pos = posq as i64;
        proof {
            assert(0 <= pos <= len as int * 65536);
            lemma_div_range(pos as int, 65536, 0, len as int * 65536);
            lemma_div_is_ordered(pos as int, len as int * 65536, 65536);
            lemma_div_exact_mul(len as int, 65536);
        }
        let src = ((pos as u64) / 65536) as usize;
        let lo = if src >= 8 {
            src - 8
        } else {
            0
        };
        let hi = if src + 8 <= len {
            src + 8
        } else {
            len
        };
        proof {
            lemma_fundamental_div_mod(pos as int, 65536);
        }
        let mut acc: i128 = 0;
        let mut wsum: i64 = 0;
        let mut j = lo;
        while j < hi
            invariant
                s == samples@,
                samples_ok(s),
                s.len() == len <= MAX_INPUT_LEN,
                0 <= pos <= 0x400000000000,
                src == pos as int / 65536,
                src as int * 65536 <= pos < (src as int + 1) * 65536,
                lo == if src >= 8 { src - 8 } else { 0 },
                hi == if src + 8 <= len { src + 8 } else { len as int },
                lo <= j <= hi,
                hi <= len,
                (acc as int, wsum as int) == conv_sums(s, pos as int, lo as int, j as int),
                -0x10000000000000000000int * (j - lo) <= acc
                    <= 0x10000000000000000000int * (j - lo),
                -0x1000000000000int * (j - lo) <= wsum <= 0x1000000000000int * (j - lo),
            decreases hi - j,
        {
            let d = (j as i64) * 65536 - pos;
            let ad = if d < 0 {
                -d
            } else {
                d
            };
            proof {
                assert(src as int * 65536 <= pos < (src as int + 1) * 65536);
                assert((j as int) * 65536 <= (src as int + 8) * 65536) by (nonlinear_arith)
                    requires j as int <= src as int + 8;
                assert((j as int) * 65536 >= (src as int - 8) * 65536) by (nonlinear_arith)
                    requires j as int >= src as int - 8;
                assert(ad <= 9 * 65536);
                lemma_div_range(ad as int, 8, 0, 9int * 65536int);
            }
            let w: i64 = if ad >= 524288 {
                0
            } else {
                let lanc_arg = div_floor(ad, 8);
                crate::fixed::qmul(sinc_pi(ad), sinc_pi(lanc_arg))
            };
            proof {
                assert(w == weight_at(iabs(j as int * 65536 - pos as int)));
                assert(-0x1000000000000 <= w <= 0x1000000000000) by {
                    if ad < 524288 {
                        lemma_mul_bound(sinc_pi_q16(ad as int),
                            sinc_pi_q16(ad as int / 8), 0x100000000, 0x100000000);
                        lemma_div_is_ordered(
                            sinc_pi_q16(ad as int) * sinc_pi_q16(ad as int / 8),
                            0x100000000int * 0x100000000int, 65536);
                        lemma_div_is_ordered(-(0x100000000int * 0x100000000int),
                            sinc_pi_q16(ad as int) * sinc_pi_q16(ad as int / 8), 65536);
                    }
                }
                lemma_mul_bound(s[j as int] as int, w as int, SAMPLE_LIMIT as int,
                    0x1000000000000);
            }
            acc = acc + (samples[j] as i128) * (w as i128);
            wsum = wsum + w;
            j = j + 1;
        }
        let den: i64 = if wsum < 1 {
            1
        } else {
            wsum
        };
        proof {
            lemma_div_range(acc as int, den as int,
                -0x100000000000000000000000int, 0x100000000000000000000000int);
        }
        let raw = div_floor_i128(acc, den as i128);
        let v: i64 = if raw < -(OUT_LIMIT as i128) {
            -OUT_LIMIT
        } else if raw > OUT_LIMIT as i128 {
            OUT_LIMIT
        } else {
            raw as i64
        };
        proof {
            assert(v == resample_at(s, from_rate as int, to_rate as int, i as int));
        }
        out.push(v);
        i = i + 1;
    }
    out
}

/// An output index below the rounded output length maps to a source
/// position inside the buffer: `i * from <= len * to`.
proof fn lemma_index_maps_inside(len: int, from: int, to: int, i: int)
    requires
        1 <= from,
        1 <= to,
        0 <= i,
        i < resample_len(len, from, to),
        0 <= len,
    ensures
        i * from <= len * to,
{
    let q = (2 * len * to + from) / (2 * from);
    lemma_fundamental_div_mod(2 * len * to + from, 2 * from);
    assert(q * (2 * from) <= 2 * len * to + from);
    lemma_mul_inequality(i + 1, q, 2 * from);
    assert((i + 1) * (2 * from) <= q * (2 * from));
    assert(i * from <= len * to) by (nonlinear_arith)
        requires (i + 1) * (2 * from) <= 2 * len * to + from && 1 <= from && 1 <= to;
}

/// A product divided by its own positive factor gives the other factor.
proof fn lemma_div_exact_mul(a: int, b: int)
    requires
        1 <= b,
        0 <= a,
    ensures
        (a * b) / b == a,
{
    vstd::arithmetic::div_mod::lemma_fundamental_div_mod_converse(a * b, b, a, 0);
}

} // verus!
