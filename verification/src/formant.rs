//! Formant analysis: linear prediction by the Levinson-Durbin
//! recursion, then a 512-point sweep of the all-pole filter's magnitude
//! response and a prominence test on its local maxima.
//!
//! Degenerate input yields degenerate output: a silent frame gives
//! all-zero coefficients, a flat response, and an empty formant list.
//! Coefficients, the reflection value, and the residual energy are
//! saturated at fixed bounds so the recursion is total; ordinary speech
//! frames never reach those bounds.

use crate::fixed::{clamp_i, div_floor, div_floor_i128, isqrt, lemma_div_range,
    lemma_mul_bound, q_mul};
use crate::pitch::{ac_sum, autocorr};
use crate::trig::{cos_turn, cos_turn_q16, sin_turn, sin_turn_q16};
use crate::{samples_ok, SAMPLE_LIMIT};
use vstd::arithmetic::div_mod::lemma_div_is_ordered;
use vstd::prelude::*;

verus! {

/// Saturation bound for prediction coefficients (32768.0 in Q16).
pub const COEF_LIMIT: i64 = 0x80000000;

/// Largest residual energy: a full frame of full-headroom samples.
pub const ENERGY_LIMIT: i64 = 0x100000000000000;

/// `r` is the integer square root of `x`.
pub open spec fn is_floor_sqrt(x: int, r: int) -> bool {
    r >= 0 && r * r <= x < (r + 1) * (r + 1)
}

/// Floor of the square root: the greatest `r >= 0` with `r * r <= x`.
pub open spec fn floor_sqrt(x: int) -> int {
    choose|r: int| is_floor_sqrt(x, r)
}

/// Dot product of the previous-order coefficients against the
/// autocorrelation tail: `sum of a[j] * r(m - j) / 65536` over `j < k`.
pub open spec fn lev_dot(s: Seq<i64>, n: int, a: Seq<int>, m: int, k: int) -> int
    decreases k,
{
    if k <= 0 {
        0
    } else {
        lev_dot(s, n, a, m, k - 1) + (a[k - 1] * autocorr(s, m - (k - 1), n)) / 65536
    }
}

/// Levinson-Durbin state after `i` steps: the `i` prediction
/// coefficients so far and the residual energy, both saturated.
pub open spec fn lev_state(s: Seq<i64>, n: int, i: nat) -> (Seq<int>, int)
    decreases i,
{
    if i == 0 {
        let e0 = autocorr(s, 0, n);
        (Seq::empty(), if e0 < 1 { 1 } else { e0 })
    } else {
        let prev = lev_state(s, n, (i - 1) as nat);
        let a = prev.0;
        let e = prev.1;
        let num = autocorr(s, i as int, n) - lev_dot(s, n, a, i as int - 1, i as int - 1);
        let lam = clamp_i((num * 65536) / e, -COEF_LIMIT as int, COEF_LIMIT as int);
        let a2 = Seq::new((i - 1) as nat,
            |j: int| clamp_i(a[j] - (lam * a[i - 2 - j]) / 65536, -COEF_LIMIT as int,
                COEF_LIMIT as int));
        let lam2 = (lam * lam) / 65536;
        let e2 = (e * (65536 - lam2)) / 65536;
        (a2.push(lam), if e2 < 1 { 1 } else { e2 })
    }
}

/// The prediction coefficients a frame yields: all zero on silence,
/// otherwise the Levinson-Durbin result of order `p`.
pub open spec fn lpc_spec(s: Seq<i64>, n: int, p: int) -> Seq<int> {
    if autocorr(s, 0, n) == 0 {
        Seq::new(p as nat, |j: int| 0int)
    } else {
        lev_state(s, n, p as nat).0
    }
}

/// Real correlation sum of the filter response at sweep bin `i`:
/// coefficients against cosines of `(k + 1) * i / 1024` turns.
pub open spec fn fr_re(a: Seq<int>, i: int, k: int) -> int
    decreases k,
{
    if k <= 0 {
        0
    } else {
        fr_re(a, i, k - 1) + q_mul(a[k - 1], cos_turn_q16((k * i * 64) % 65536))
    }
}

/// Imaginary correlation sum of the filter response at sweep bin `i`.
pub open spec fn fr_im(a: Seq<int>, i: int, k: int) -> int
    decreases k,
{
    if k <= 0 {
        0
    } else {
        fr_im(a, i, k - 1) + q_mul(a[k - 1], sin_turn_q16((k * i * 64) % 65536))
    }
}

/// `v` saturated into the band squared below.
pub open spec fn sat_sum(v: int) -> int {
    clamp_i(v, -0x40000000, 0x40000000)
}

/// Magnitude response at sweep bin `i`: the reciprocal square root of
/// the squared correlation sums, floored by one epsilon unit.
pub open spec fn response_at(a: Seq<int>, p: int, i: int) -> int {
    let rs = sat_sum(65536 - fr_re(a, i, p));
    let is = sat_sum(fr_im(a, i, p));
    let den = rs * rs + is * is + 1;
    let sq = floor_sqrt(den);
    0x100000000int / (if sq < 1 { 1int } else { sq })
}

/// Local maximum at `i` whose value exceeds 1.5 times the average of
/// its two neighbours.
pub open spec fn is_peak(resp: Seq<int>, i: int) -> bool {
    &&& resp[i] > resp[i - 1]
    &&& resp[i] > resp[i + 1]
    &&& 4 * resp[i] > 3 * (resp[i - 1] + resp[i + 1])
}

/// The formant frequencies found scanning bins `[i, 511)` with `found`
/// peaks already taken: each peak contributes `i * sr / 1024` Hz in
/// Q16, and the scan stops at four.
pub open spec fn peaks_from(resp: Seq<int>, sr: int, i: int, found: int) -> Seq<i64>
    decreases 511 - i,
{
    if i >= 511 || found >= 4 {
        Seq::empty()
    } else if is_peak(resp, i) {
        seq![(i * sr * 64) as i64] + peaks_from(resp, sr, i + 1, found + 1)
    } else {
        peaks_from(resp, sr, i + 1, found)
    }
}

/// The full response sweep of a coefficient sequence.
pub open spec fn response_seq(a: Seq<int>, p: int) -> Seq<int> {
    Seq::new(512, |i: int| response_at(a, p, i))
}

/// The whole analysis: up to four ascending peak frequencies of the
/// response the frame's prediction coefficients define.
pub open spec fn analyze_spec(s: Seq<i64>, n: int, sr: int, p: int) -> Seq<i64> {
    peaks_from(response_seq(lpc_spec(s, n, p), p), sr, 1, 0)
}

pub struct FormantAnalyzer {
    pub sample_rate: u32,
    pub lpc_order: usize,
}

impl FormantAnalyzer {
    /// Configuration limits every method relies on.
    pub open spec fn wf(self) -> bool {
        &&& 1 <= self.sample_rate <= 1000000
        &&& self.lpc_order <= 64
    }

    /// An analyzer for the given rate and prediction order.
    pub fn new(sample_rate: u32, lpc_order: usize) -> (r: FormantAnalyzer)
        requires
            1 <= sample_rate <= 1000000,
            lpc_order <= 64,
        ensures
            r.wf(),
            r.sample_rate == sample_rate,
            r.lpc_order == lpc_order,
    {
        FormantAnalyzer { sample_rate, lpc_order }
    }

    /// The prediction coefficients of one frame; all zero on silence.
    pub fn compute_lpc(&self, samples: &Vec<i64>) -> (r: Vec<i64>)
        requires
            self.wf(),
            samples_ok(samples@),
            samples@.len() <= 0x100000,
        ensures
            r@.len() == self.lpc_order,
            forall|j: int| 0 <= j < r@.len()
                ==> #[trigger] r@[j] == lpc_spec(samples@, samples@.len() as int,
                    self.lpc_order as int)[j],
            forall|j: int| 0 <= j < r@.len()
                ==> -COEF_LIMIT <= #[trigger] r@[j] <= COEF_LIMIT,
    {
        let ghost s = samples@;
        let n = samples.len();
        let p = self.lpc_order;
        let r0 = corr_at(samples, 0);
        let mut out: Vec<i64> = Vec::new();
        if r0 == 0 {
            let mut j: usize = 0;
            while j < p
                invariant
                    0 <= j <= p,
                    out@.len() == j,
                    forall|t: int| 0 <= t < j ==> #[trigger] out@[t] == 0,
                decreases p - j,
            {
                out.push(0);
                j = j + 1;
            }
            return out;
        }
        let mut e: i64 = r0;
        proof {
            lemma_corr_zero_pos(s, n as int);
            assert(lev_state(s, n as int, 0) == (Seq::<int>::empty(),
                if r0 < 1 { 1int } else { r0 as int }));
        }
        let mut i: usize = 1;
        while i <= p
            invariant
                self.wf(),
                s == samples@,
                samples_ok(s),
                n == s.len() <= 0x100000,
                p == self.lpc_order <= 64,
                autocorr(s, 0, n as int) != 0,
                1 <= i <= p + 1,
                out@.len() == i - 1,
                forall|t: int| 0 <= t < i - 1
                    ==> #[trigger] out@[t] == lev_state(s, n as int, (i - 1) as nat).0[t],
                forall|t: int| 0 <= t < i - 1
                    ==> -COEF_LIMIT <= #[trigger] out@[t] <= COEF_LIMIT,
                e == lev_state(s, n as int, (i - 1) as nat).1,
                1 <= e <= ENERGY_LIMIT,
            decreases p + 1 - i,
        {
            let ghost prev = lev_state(s, n as int, (i - 1) as nat);
            let ri = corr_at(samples, i);
            let mut dot: i128 = 0;
            let mut j: usize = 0;
            while j < i - 1
                invariant
                    s == samples@,
                    samples_ok(s),
                    n == s.len() <= 0x100000,
                    1 <= i <= 65,
                    out@.len() == i - 1,
                    forall|t: int| 0 <= t < i - 1 ==> #[trigger] out@[t] == prev.0[t],
                    forall|t: int| 0 <= t < i - 1
                        ==> -COEF_LIMIT <= #[trigger] out@[t] <= COEF_LIMIT,
                    0 <= j <= i - 1,
                    dot == lev_dot(s, n as int, prev.0, i as int - 1, j as int),
                    -0x800000000000000000int * j <= dot <= 0x800000000000000000int * j,
                decreases i - 1 - j,
            {
                let rj = corr_at(samples, i - 1 - j);
                proof {
                    lemma_mul_bound(out@[j as int] as int, rj as int, COEF_LIMIT as int,
                        ENERGY_LIMIT as int);
                    lemma_div_range(out@[j as int] as int * rj as int, 65536,
                        -(COEF_LIMIT as int * ENERGY_LIMIT as int),
                        COEF_LIMIT as int * ENERGY_LIMIT as int);
                }
                let term = div_floor_i128((out[j] as i128) * (rj as i128), 65536);
                dot = dot + term;
                j = j + 1;
            }
            let num: i128 = (ri as i128) - dot;
            proof {
                lemma_mul_bound(num as int, 65536, 0x500000000000000000000, 65536);
                lemma_div_range(num as int * 65536, e as int,
                    -(0x500000000000000000000int * 65536),
                    0x500000000000000000000int * 65536);
            }
            let lamq = div_floor_i128(num * 65536, e as i128);
            let lam: i64 = if lamq < -(COEF_LIMIT as i128) {
                -COEF_LIMIT
            } else if lamq > COEF_LIMIT as i128 {
                COEF_LIMIT
            } else {
                lamq as i64
            };
            let mut next: Vec<i64> = Vec::new();
            let mut j: usize = 0;
            while j < i - 1
                invariant
                    1 <= i <= 65,
                    out@.len() == i - 1,
                    forall|t: int| 0 <= t < i - 1 ==> #[trigger] out@[t] == prev.0[t],
                    forall|t: int| 0 <= t < i - 1
                        ==> -COEF_LIMIT <= #[trigger] out@[t] <= COEF_LIMIT,
                    -COEF_LIMIT <= lam <= COEF_LIMIT,
                    0 <= j <= i - 1,
                    next@.len() == j,
                    forall|t: int| 0 <= t < j ==> #[trigger] next@[t]
                        == clamp_i(prev.0[t] - (lam as int * prev.0[i - 2 - t]) / 65536,
                            -COEF_LIMIT as int, COEF_LIMIT as int),
                    forall|t: int| 0 <= t < j
                        ==> -COEF_LIMIT <= #[trigger] next@[t] <= COEF_LIMIT,
                decreases i - 1 - j,
            {
                let prior = out[i - 2 - j];
                proof {
                    lemma_mul_bound(lam as int, prior as int, COEF_LIMIT as int,
                        COEF_LIMIT as int);
                    lemma_div_range(lam as int * prior as int, 65536,
                        -(COEF_LIMIT as int * COEF_LIMIT as int),
                        COEF_LIMIT as int * COEF_LIMIT as int);
                }
                let cross = div_floor_i128((lam as i128) * (prior as i128), 65536);
                let rawv: i128 = (out[j] as i128) - cross;
                let v: i64 = if rawv < -(COEF_LIMIT as i128) {
                    -COEF_LIMIT
                } else if rawv > COEF_LIMIT as i128 {
                    COEF_LIMIT
                } else {
                    rawv as i64
                };
                next.push(v);
                j = j + 1;
            }
            next.push(lam);
            proof {
                lemma_mul_bound(lam as int, lam as int, COEF_LIMIT as int, COEF_LIMIT as int);
                assert(lam as int * lam as int >= 0) by (nonlinear_arith);
                lemma_div_range(lam as int * lam as int, 65536, 0,
                    COEF_LIMIT as int * COEF_LIMIT as int);
            }
            let lam2: i64 = div_floor_i128((lam as i128) * (lam as i128), 65536) as i64;
            proof {
                lemma_mul_bound(e as int, 65536 - lam2 as int, ENERGY_LIMIT as int,
                    0x400000000000);
                lemma_div_range(e as int * (65536 - lam2 as int), 65536,
                    -(ENERGY_LIMIT as int * 0x400000000000),
                    ENERGY_LIMIT as int * 0x400000000000);
                assert(e as int * (65536 - lam2 as int) <= e as int * 65536)
                    by (nonlinear_arith)
                    requires e >= 1 && lam2 >= 0;
                lemma_div_is_ordered(e as int * (65536 - lam2 as int), e as int * 65536,
                    65536);
                assert(e as int * 65536 / 65536 == e as int);
            }
            let e2q = div_floor_i128((e as i128) * (65536 - (lam2 as i128)), 65536);
            e = if e2q < 1 {
                1
            } else {
                e2q as i64
            };
            proof {
                assert(next@.len() == i);
                assert forall|t: int| 0 <= t < i implies #[trigger] next@[t]
                    == lev_state(s, n as int, i as nat).0[t] by {
                    assert(lev_state(s, n as int, i as nat).0
                        == Seq::new((i - 1) as nat, |jj: int| clamp_i(prev.0[jj]
                            - ((lev_lam(s, n as int, i as nat)) * prev.0[i - 2 - jj]) / 65536,
                            -COEF_LIMIT as int, COEF_LIMIT as int)).push(
                            lev_lam(s, n as int, i as nat)));
                    assert(lam == lev_lam(s, n as int, i as nat));
                }
                assert(e == lev_state(s, n as int, i as nat).1);
            }
            out = next;
            i = i + 1;
        }
        out
    }

    /// Up to four ascending formant frequencies of one frame, in Q16
    /// hertz; empty when no response peak is prominent enough.
    pub fn analyze(&self, samples: &Vec<i64>) -> (r: Vec<i64>)
        requires
            self.wf(),
            samples_ok(samples@),
            samples@.len() <= 0x100000,
        ensures
            r@ == analyze_spec(samples@, samples@.len() as int, self.sample_rate as int,
                self.lpc_order as int),
            forall|a: int, b: int| 0 <= a < b < r@.len() ==> r@[a] < r@[b],
    {
        let ghost s = samples@;
        let ghost p = self.lpc_order as int;
        let ghost sri = self.sample_rate as int;
        let coeffs = self.compute_lpc(samples);
        let ghost ca = lpc_spec(s, s.len() as int, p);
        proof {
            lemma_lev_len(s, s.len() as int, p as nat);
            assert(ca.len() == p);
        }
        let resp = response_sweep(&coeffs, Ghost(ca));
        let ghost rq = response_seq(ca, p);
        let sr64 = (self.sample_rate as i64) * 64;
        let mut out: Vec<i64> = Vec::new();
        let mut i: usize = 1;
        while i < 511 && out.len() < 4
            invariant
                1 <= sr64 == sri * 64 <= 64000000,
                resp@.len() == 512,
                forall|t: int| 0 <= t < 512 ==> #[trigger] resp@[t] == rq[t],
                forall|t: int| 0 <= t < 512 ==> 0 <= #[trigger] resp@[t] <= 0x100000000,
                1 <= i <= 511,
                out@.len() <= 4,
                out@ + peaks_from(rq, sri, i as int, out@.len() as int)
                    == peaks_from(rq, sri, 1, 0),
                forall|t: int| 0 <= t < out@.len()
                    ==> 0 <= #[trigger] out@[t] < i as int * sr64,
                forall|a: int, b: int| 0 <= a < b < out@.len() ==> out@[a] < out@[b],
            decreases 511 - i,
        {
            let prevv = resp[i - 1];
            let cur = resp[i];
            let nxt = resp[i + 1];
            if cur > prevv && cur > nxt && 4 * cur > 3 * (prevv + nxt) {
                let ghost before = out@;
                proof {
                    lemma_mul_bound(i as int, sr64 as int, 511, 64000000);
                    assert(i as int * (sri * 64) == i as int * sri * 64) by (nonlinear_arith);
                }
                out.push((i as i64) * sr64);
                proof {
                    assert(is_peak(rq, i as int));
                    assert(out@ =~= before + seq![((i as int * sri * 64) as i64)]);
                    assert(before + (seq![((i as int * sri * 64) as i64)]
                        + peaks_from(rq, sri, i as int + 1, before.len() as int + 1))
                        =~= out@ + peaks_from(rq, sri, i as int + 1, out@.len() as int));
                }
            } else {
                proof {
                    assert(!is_peak(rq, i as int));
                }
            }
            proof {
                lemma_mul_bound(i as int + 1, sr64 as int, 511, 64000000);
                assert((i as int + 1) * sr64 == i as int * sr64 + sr64) by (nonlinear_arith);
                lemma_mul_bound(i as int, sr64 as int, 511, 64000000);
            }
            i = i + 1;
        }
        proof {
            assert(peaks_from(rq, sri, i as int, out@.len() as int) =~= Seq::<i64>::empty());
        }
        out
    }
}

/// Reflection value chosen at step `i` of the recursion.
pub open spec fn lev_lam(s: Seq<i64>, n: int, i: nat) -> int {
    let prev = lev_state(s, n, (i - 1) as nat);
    let num = autocorr(s, i as int, n) - lev_dot(s, n, prev.0, i as int - 1, i as int - 1);
    clamp_i((num * 65536) / prev.1, -COEF_LIMIT as int, COEF_LIMIT as int)
}

/// Autocorrelation of the whole buffer at `lag`, summed directly; a
/// lag past the end of the buffer sums nothing.
fn corr_at(samples: &Vec<i64>, lag: usize) -> (r: i64)
    requires
        samples_ok(samples@),
        samples@.len() <= 0x100000,
        lag <= 0x200000,
    ensures
        r == autocorr(samples@, lag as int, samples@.len() as int),
        -ENERGY_LIMIT <= r <= ENERGY_LIMIT,
{
    let n = samples.len();
    let m = if n > lag {
        n - lag
    } else {
        0
    };
    let mut r: i64 = 0;
    let mut j: usize = 0;
    while j < m
        invariant
            samples_ok(samples@),
            m != 0 ==> lag + m <= samples@.len(),
            m <= 0x100000,
            lag <= 0x200000,
            0 <= j <= m,
            r == ac_sum(samples@, lag as int, j as int),
            -0x1000000000int * j <= r <= 0x1000000000int * j,
        decreases m - j,
    {
        let a = samples[j];
        let b = samples[j + lag];
        proof {
            lemma_mul_bound(a as int, b as int, SAMPLE_LIMIT as int, SAMPLE_LIMIT as int);
        }
        r = r + a * b;
        j = j + 1;
    }
    proof {
        lemma_mul_bound(m as int, 0x1000000000, 0x100000, 0x1000000000);
        if samples@.len() as int - lag as int <= 0 {
            assert(ac_sum(samples@, lag as int, samples@.len() as int - lag as int) == 0);
        }
    }
    r
}

/// The autocorrelation at lag zero is a sum of squares, never negative.
proof fn lemma_corr_zero_pos(s: Seq<i64>, n: int)
    ensures
        autocorr(s, 0, n) >= 0,
{
    lemma_ac0_nonneg(s, n);
}

proof fn lemma_ac0_nonneg(s: Seq<i64>, j: int)
    ensures
        ac_sum(s, 0, j) >= 0,
    decreases j,
{
    if j > 0 {
        lemma_ac0_nonneg(s, j - 1);
        assert(s[j - 1] * s[j - 1] >= 0) by (nonlinear_arith);
    }
}

/// The 512-point magnitude response of a coefficient vector.
fn response_sweep(coeffs: &Vec<i64>, Ghost(ca): Ghost<Seq<int>>) -> (r: Vec<i64>)
    requires
        coeffs@.len() <= 64,
        forall|j: int| 0 <= j < coeffs@.len() ==> #[trigger] coeffs@[j] == ca[j],
        forall|j: int| 0 <= j < coeffs@.len()
            ==> -COEF_LIMIT <= #[trigger] coeffs@[j] <= COEF_LIMIT,
        ca.len() == coeffs@.len(),
    ensures
        r@.len() == 512,
        forall|i: int| 0 <= i < 512
            ==> #[trigger] r@[i] == response_seq(ca, ca.len() as int)[i],
        forall|i: int| 0 <= i < 512 ==> 0 <= #[trigger] r@[i] <= 0x100000000,
{
    let p = coeffs.len();
    let mut out: Vec<i64> = Vec::new();
    let mut i: usize = 0;
    while i < 512
        invariant
            p == coeffs@.len() == ca.len() <= 64,
            forall|j: int| 0 <= j < p ==> #[trigger] coeffs@[j] == ca[j],
            forall|j: int| 0 <= j < p
                ==> -COEF_LIMIT <= #[trigger] coeffs@[j] <= COEF_LIMIT,
            0 <= i <= 512,
            out@.len() == i,
            forall|t: int| 0 <= t < i ==> #[trigger] out@[t] == response_at(ca, p as int, t),
            forall|t: int| 0 <= t < i ==> 0 <= #[trigger] out@[t] <= 0x100000000,
        decreases 512 - i,
    {
        let mut re: i64 = 65536;
        let mut im: i64 = 0;
        let mut k: usize = 0;
        while k < p
            invariant
                p == coeffs@.len() == ca.len() <= 64,
                i < 512,
                forall|j: int| 0 <= j < p ==> #[trigger] coeffs@[j] == ca[j],
                forall|j: int| 0 <= j < p
                    ==> -COEF_LIMIT <= #[trigger] coeffs@[j] <= COEF_LIMIT,
                0 <= k <= p,
                re == 65536 - fr_re(ca, i as int, k as int),
                im == fr_im(ca, i as int, k as int),
                65536 - 0x80000000int * k <= re <= 65536 + 0x80000000int * k,
                -0x80000000int * k <= im <= 0x80000000int * k,
            decreases p - k,
        {
            proof {
                lemma_mul_bound((k + 1) as int, i as int, 65, 512);
            }
            let ph = (((k + 1) * i * 64) % 65536) as i64;
            let c = cos_turn(ph);
            let sv = sin_turn(ph);
            let a = coeffs[k];
            proof {
                lemma_mul_bound(a as int, c as int, COEF_LIMIT as int, 65536);
                lemma_div_range(a as int * c as int, 65536,
                    -(COEF_LIMIT as int * 65536), COEF_LIMIT as int * 65536);
                lemma_div_is_ordered(a as int * c as int, COEF_LIMIT as int * 65536, 65536);
                lemma_div_is_ordered(-(COEF_LIMIT as int * 65536), a as int * c as int,
                    65536);
                lemma_mul_bound(a as int, sv as int, COEF_LIMIT as int, 65536);
                lemma_div_is_ordered(a as int * sv as int, COEF_LIMIT as int * 65536, 65536);
                lemma_div_is_ordered(-(COEF_LIMIT as int * 65536), a as int * sv as int,
                    65536);
                assert(ph == ((k + 1) as int * i as int * 64) % 65536);
            }
            re = re - crate::fixed::qmul(a, c);
            im = im + crate::fixed::qmul(a, sv);
            k = k + 1;
        }
        let rs: i64 = if re < -0x40000000 {
            -0x40000000
        } else if re > 0x40000000 {
            0x40000000
        } else {
            re
        };
        let is: i64 = if im < -0x40000000 {
            -0x40000000
        } else if im > 0x40000000 {
            0x40000000
        } else {
            im
        };
        proof {
            lemma_mul_bound(rs as int, rs as int, 0x40000000, 0x40000000);
            lemma_mul_bound(is as int, is as int, 0x40000000, 0x40000000);
            assert(rs as int * rs as int >= 0) by (nonlinear_arith);
            assert(is as int * is as int >= 0) by (nonlinear_arith);
        }
        let den: i128 = (rs as i128) * (rs as i128) + (is as i128) * (is as i128) + 1;
        proof {
            assert(den >= 1);
        }
        let sq = isqrt(den as u128);
        let ghost denq = den as int;
        proof {
            assert(is_floor_sqrt(denq, sq as int));
            assert(floor_sqrt(denq) == sq as int) by {
                assert(exists|r: int| is_floor_sqrt(denq, r)) by {
                    assert(is_floor_sqrt(denq, sq as int));
                }
                let w = floor_sqrt(denq);
                assert(is_floor_sqrt(denq, w));
                lemma_sqrt_unique(denq, w, sq as int);
            }
            assert(sq >= 1) by (nonlinear_arith)
                requires denq >= 1 && sq as int * sq as int <= denq
                    < (sq as int + 1) * (sq as int + 1) && sq as int >= 0;
        }
        let rv = div_floor(0x100000000, sq as i64);
        proof {
            lemma_div_range(0x100000000, sq as int, 0, 0x100000000);
            assert(rs == sat_sum(65536 - fr_re(ca, i as int, p as int)));
            assert(is == sat_sum(fr_im(ca, i as int, p as int)));
            assert(rv == response_at(ca, p as int, i as int));
        }
        out.push(rv);
        i = i + 1;
    }
    out
}

/// The recursion yields exactly one coefficient per step.
proof fn lemma_lev_len(s: Seq<i64>, n: int, i: nat)
    ensures
        lev_state(s, n, i).0.len() == i,
    decreases i,
{
    if i > 0 {
        lemma_lev_len(s, n, (i - 1) as nat);
    }
}

/// Integer square roots are unique.
proof fn lemma_sqrt_unique(x: int, a: int, b: int)
    by (nonlinear_arith)
    requires
        a >= 0,
        b >= 0,
        a * a <= x < (a + 1) * (a + 1),
        b * b <= x < (b + 1) * (b + 1),
    ensures
        a == b,
{
}

/// On an exactly silent frame the coefficients are all zero, the
/// response sweep is flat, no bin is a strict local maximum, and the
/// formant list is empty.
pub proof fn lemma_silence_no_formants(s: Seq<i64>, sr: int, p: int)
    requires
        forall|i: int| 0 <= i < s.len() ==> s[i] == 0,
        0 <= p,
    ensures
        lpc_spec(s, s.len() as int, p) == Seq::new(p as nat, |j: int| 0int),
        analyze_spec(s, s.len() as int, sr, p) == Seq::<i64>::empty(),
{
    let n = s.len() as int;
    crate::pitch::lemma_zero_ac(s, 0, n);
    let ca = lpc_spec(s, n, p);
    let rq = response_seq(ca, p);
    assert forall|i: int| 0 <= i < 512 implies #[trigger] rq[i] == rq[0] by {
        lemma_zero_coef_sums(ca, i, p);
        lemma_zero_coef_sums(ca, 0, p);
    }
    lemma_flat_no_peaks(rq, sr, 1, 0);
}

proof fn lemma_zero_coef_sums(a: Seq<int>, i: int, k: int)
    requires
        forall|j: int| 0 <= j < a.len() ==> a[j] == 0,
        k <= a.len(),
    ensures
        fr_re(a, i, k) == 0,
        fr_im(a, i, k) == 0,
    decreases k,
{
    if k > 0 {
        lemma_zero_coef_sums(a, i, k - 1);
        assert(a[k - 1] == 0);
        assert(q_mul(0, cos_turn_q16((k * i * 64) % 65536)) == 0) by {
            assert(0int * cos_turn_q16((k * i * 64) % 65536) == 0) by (nonlinear_arith);
        }
        assert(q_mul(0, sin_turn_q16((k * i * 64) % 65536)) == 0) by {
            assert(0int * sin_turn_q16((k * i * 64) % 65536) == 0) by (nonlinear_arith);
        }
    }
}

proof fn lemma_flat_no_peaks(rq: Seq<int>, sr: int, i: int, found: int)
    requires
        forall|t: int| 0 <= t < 512 ==> #[trigger] rq[t] == rq[0],
        1 <= i,
    ensures
        peaks_from(rq, sr, i, found) == Seq::<i64>::empty(),
    decreases 511 - i,
{
    if i < 511 && found < 4 {
        assert(rq[i] == rq[0] && rq[i - 1] == rq[0]);
        assert(!is_peak(rq, i));
        lemma_flat_no_peaks(rq, sr, i + 1, found);
    }
}

} // verus!
