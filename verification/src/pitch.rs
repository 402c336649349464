//! Pitch tracking: the YIN fundamental-frequency estimator on Q16
//! samples.
//!
//! Per call: autocorrelation of the frame, the difference function
//! `d(tau) = 2 * (r(0) - r(tau))`, its cumulative mean normalized form,
//! then the first lag inside the plausible 50-500 Hz range whose
//! normalized difference dips below the voicing threshold, refined by
//! parabolic interpolation. No dip means unvoiced, reported as `(0, 0)`.

use crate::fixed::{clamp_i, div_floor, div_floor_i128, floor_div, lemma_div_range,
    lemma_mul_bound};
use crate::{samples_ok, MAX_INPUT_LEN, SAMPLE_LIMIT};
use vstd::arithmetic::div_mod::lemma_div_is_ordered;
use vstd::prelude::*;

verus! {

/// Saturation bound for normalized difference values.
pub const CMND_LIMIT: i64 = 0x10000000000;

/// Autocorrelation partial sum: products of samples `lag` apart over
/// the first `j` positions.
pub open spec fn ac_sum(s: Seq<i64>, lag: int, j: int) -> int
    decreases j,
{
    if j <= 0 {
        0
    } else {
        ac_sum(s, lag, j - 1) + s[j - 1] * s[j - 1 + lag]
    }
}

/// Autocorrelation of the first `n` samples at `lag`.
pub open spec fn autocorr(s: Seq<i64>, lag: int, n: int) -> int {
    ac_sum(s, lag, n - lag)
}

/// Difference function `2 * (r(0) - r(tau))` over the first `n` samples.
pub open spec fn diff_at(s: Seq<i64>, n: int, tau: int) -> int {
    2 * (autocorr(s, 0, n) - autocorr(s, tau, n))
}

/// Running sum of the difference function over lags `1..=tau`.
pub open spec fn rsum(s: Seq<i64>, n: int, tau: int) -> int
    decreases tau,
{
    if tau <= 0 {
        0
    } else {
        rsum(s, n, tau - 1) + diff_at(s, n, tau)
    }
}

/// Cumulative mean normalized difference at `tau`: 1.0 at lag zero,
/// `d(tau) * tau / sum` when the running sum is positive, and the 1.0
/// fallback when it is not; saturated to the representable band.
pub open spec fn cmnd_at(s: Seq<i64>, n: int, tau: int) -> int {
    if tau <= 0 {
        65536
    } else {
        let rs = rsum(s, n, tau);
        if rs > 0 {
            clamp_i((diff_at(s, n, tau) * tau * 65536) / rs, -CMND_LIMIT as int,
                CMND_LIMIT as int)
        } else {
            65536
        }
    }
}

/// First lag in `[tau, hi)` whose normalized difference dips below the
/// threshold, or -1 when none does.
pub open spec fn dip_from(s: Seq<i64>, n: int, tau: int, hi: int, th: int) -> int
    decreases hi - tau,
{
    if tau >= hi {
        -1
    } else if cmnd_at(s, n, tau) < th {
        tau
    } else {
        dip_from(s, n, tau + 1, hi, th)
    }
}

/// The estimate for one frame: frequency and confidence, both Q16.
pub open spec fn pitch_pair(s: Seq<i64>, sr: int, frame: int, th: int) -> (int, int) {
    let n = if s.len() < frame {
        s.len() as int
    } else {
        frame
    };
    let tau_max = n / 2;
    let minp = sr / 500;
    let maxp = sr / 50;
    let hi = if maxp < tau_max {
        maxp
    } else {
        tau_max
    };
    let t = dip_from(s, n, minp, hi, th);
    if t < 0 {
        (0, 0)
    } else if 0 < t && t < tau_max - 1 && parab_denom(s, n, t) != 0 {
        let s1 = cmnd_at(s, n, t);
        let rt = t * 65536 + parab_adj(s, n, t);
        (floor_div(sr * 0x100000000, rt), 65536 - s1)
    } else {
        (floor_div(sr * 65536, t), 65536 - cmnd_at(s, n, t))
    }
}

/// Curvature denominator of the parabola through the three normalized
/// difference values around `t`.
pub open spec fn parab_denom(s: Seq<i64>, n: int, t: int) -> int {
    cmnd_at(s, n, t - 1) - 2 * cmnd_at(s, n, t) + cmnd_at(s, n, t + 1)
}

/// Sub-sample lag refinement, clamped to half a sample either way.
pub open spec fn parab_adj(s: Seq<i64>, n: int, t: int) -> int {
    let s0 = cmnd_at(s, n, t - 1);
    let s2 = cmnd_at(s, n, t + 1);
    clamp_i(floor_div((s0 - s2) * 32768, parab_denom(s, n, t)), -32768, 32768)
}

pub struct PitchDetector {
    pub sample_rate: u32,
    pub frame_size: usize,
    pub threshold: i64,
}

impl PitchDetector {
    /// Configuration limits every method relies on.
    pub open spec fn wf(self) -> bool {
        &&& 500 <= self.sample_rate <= 1000000
        &&& 2 <= self.frame_size <= 16384
    }

    /// A tracker with the default voicing threshold of 0.1.
    pub fn new(sample_rate: u32, frame_size: usize) -> (r: PitchDetector)
        requires
            500 <= sample_rate <= 1000000,
            2 <= frame_size <= 16384,
        ensures
            r.wf(),
            r.sample_rate == sample_rate,
            r.frame_size == frame_size,
            r.threshold == 6554,
    {
        PitchDetector { sample_rate, frame_size, threshold: 6554 }
    }

    /// Replaces the voicing threshold.
    pub fn set_threshold(&mut self, threshold: i64)
        ensures
            final(self).threshold == threshold,
            final(self).sample_rate == old(self).sample_rate,
            final(self).frame_size == old(self).frame_size,
    {
        self.threshold = threshold;
    }

    /// Estimates the fundamental frequency of one frame; the result is
    /// the `[frequency, confidence]` pair of `pitch_pair`, `[0, 0]`
    /// when no lag dips below the threshold.
    pub fn detect(&self, samples: &Vec<i64>) -> (r: Vec<i64>)
        requires
            self.wf(),
            samples_ok(samples@),
        ensures
            r@.len() == 2,
            r@[0] == pitch_pair(samples@, self.sample_rate as int, self.frame_size as int,
                self.threshold as int).0,
            r@[1] == pitch_pair(samples@, self.sample_rate as int, self.frame_size as int,
                self.threshold as int).1,
    {
        let ghost s = samples@;
        let ghost sri = self.sample_rate as int;
        let ghost fri = self.frame_size as int;
        let ghost thi = self.threshold as int;
        let n = if samples.len() < self.frame_size {
            samples.len()
        } else {
            self.frame_size
        };
        let tau_max = n / 2;
        let cm = cmnd_all(samples, n, tau_max);
        let min_period = (self.sample_rate / 500) as usize;
        let max_period = (self.sample_rate / 50) as usize;
        let hi = if max_period < tau_max {
            max_period
        } else {
            tau_max
        };
        let mut tau = min_period;
        proof {
            lemma_div_range(sri, 500, 0, 1000000);
            lemma_div_range(sri, 50, 0, 1000000);
            lemma_div_is_ordered(500, sri, 500);
            assert(500int / 500 == 1);
        }
        if tau >= hi {
            proof {
                assert(dip_from(s, n as int, tau as int, hi as int, thi) == -1);
            }
            let mut out: Vec<i64> = Vec::new();
            out.push(0);
            out.push(0);
            return out;
        }
        while tau < hi
            invariant
                self.wf(),
                s == samples@,
                n as int == if s.len() < fri { s.len() as int } else { fri },
                n <= 16384,
                tau_max == n / 2,
                cm@.len() == tau_max,
                forall|t: int| 0 <= t < tau_max
                    ==> #[trigger] cm@[t] == cmnd_at(s, n as int, t),
                sri == self.sample_rate,
                fri == self.frame_size,
                thi == self.threshold,
                min_period as int == sri / 500,
                1 <= min_period <= tau,
                hi as int == if sri / 50 < tau_max { sri / 50 } else { tau_max as int },
                hi <= tau_max,
                tau <= hi,
                dip_from(s, n as int, min_period as int, hi as int, thi)
                    == dip_from(s, n as int, tau as int, hi as int, thi),
            decreases hi - tau,
        {
            if cm[tau] < self.threshold {
                proof {
                    assert(dip_from(s, n as int, tau as int, hi as int, thi) == tau);
                }
                let freq: i64;
                let conf: i64;
                if tau < tau_max - 1 {
                    let s0 = cm[tau - 1];
                    let s1 = cm[tau];
                    let s2 = cm[tau + 1];
                    let denom = s0 - 2 * s1 + s2;
                    if denom != 0 {
                        let num = (s0 - s2) * 32768;
                        let adj0 = if denom > 0 {
                            div_floor(num, denom)
                        } else {
                            div_floor(-num, -denom)
                        };
                        let adj = if adj0 < -32768 {
                            -32768
                        } else if adj0 > 32768 {
                            32768
                        } else {
                            adj0
                        };
                        proof {
                            assert(adj == parab_adj(s, n as int, tau as int));
                        }
                        let rt = (tau as i64) * 65536 + adj;
                        let fnum = (self.sample_rate as i128) * 0x100000000;
                        proof {
                            lemma_div_range(fnum as int, rt as int, 0,
                                1000000int * 0x100000000int);
                        }
                        freq = div_floor_i128(fnum, rt as i128) as i64;
                        conf = 65536 - s1;
                    } else {
                        proof {
                            lemma_div_range(sri * 65536, tau as int, 0, 1000000int * 65536);
                        }
                        freq = div_floor((self.sample_rate as i64) * 65536, tau as i64);
                        conf = 65536 - s1;
                    }
                } else {
                    proof {
                        lemma_div_range(sri * 65536, tau as int, 0, 1000000int * 65536);
                    }
                    freq = div_floor((self.sample_rate as i64) * 65536, tau as i64);
                    conf = 65536 - cm[tau];
                }
                let mut out: Vec<i64> = Vec::new();
                out.push(freq);
                out.push(conf);
                return out;
            }
            tau = tau + 1;
        }
        proof {
            assert(dip_from(s, n as int, tau as int, hi as int, thi) == -1);
        }
        let mut out: Vec<i64> = Vec::new();
        out.push(0);
        out.push(0);
        out
    }

    /// Estimates over successive hops across a longer buffer: the
    /// flattened `[frequency, confidence]` pairs of each frame.
    pub fn detect_batch(&self, samples: &Vec<i64>, hop_size: usize) -> (r: Vec<i64>)
        requires
            self.wf(),
            samples_ok(samples@),
            1 <= hop_size,
            samples@.len() <= MAX_INPUT_LEN,
        ensures
            r@ == batch_pairs(samples@, self.sample_rate as int, self.frame_size as int,
                hop_size as int, self.threshold as int,
                crate::vad::num_frames(samples@.len() as int, self.frame_size as int,
                    hop_size as int)),
            r@.len() == 2 * crate::vad::num_frames(samples@.len() as int,
                self.frame_size as int, hop_size as int),
    {
        let ghost s = samples@;
        let ghost sri = self.sample_rate as int;
        let ghost fri = self.frame_size as int;
        let ghost thi = self.threshold as int;
        let len = samples.len();
        let nf: usize = (if len > self.frame_size {
            (len - self.frame_size) / hop_size
        } else {
            0
        }) + 1;
        let mut out: Vec<i64> = Vec::new();
        let mut i: usize = 0;
        while i < nf
            invariant
                self.wf(),
                s == samples@,
                samples_ok(s),
                s.len() == len <= MAX_INPUT_LEN,
                1 <= hop_size,
                sri == self.sample_rate,
                fri == self.frame_size,
                thi == self.threshold,
                nf == crate::vad::num_frames(len as int, self.frame_size as int,
                    hop_size as int),
                0 <= i <= nf,
                out@.len() == 2 * i,
                out@ == batch_pairs(s, sri, fri, hop_size as int, thi, i as int),
            decreases nf - i,
        {
            proof {
                crate::vad::lemma_start_bound(len as int, self.frame_size as int,
                    hop_size as int, i as int);
            }
            let start = i * hop_size;
            let end = if start + self.frame_size <= len {
                start + self.frame_size
            } else {
                len
            };
            let mut frame: Vec<i64> = Vec::new();
            let mut j = start;
            while j < end
                invariant
                    s == samples@,
                    samples_ok(s),
                    start <= j <= end <= s.len(),
                    frame@.len() == j - start,
                    forall|t: int| 0 <= t < j - start ==> #[trigger] frame@[t] == s[start + t],
                decreases end - j,
            {
                frame.push(samples[j]);
                j = j + 1;
            }
            proof {
                assert(frame@ =~= batch_frame(s, self.frame_size as int, hop_size as int,
                    i as int));
            }
            let pair = self.detect(&frame);
            let ghost before = out@;
            out.push(pair[0]);
            out.push(pair[1]);
            proof {
                assert(out@ =~= before + seq![pair@[0], pair@[1]]);
                assert(out@ =~= batch_pairs(s, sri, fri, hop_size as int, thi, i as int + 1));
            }
            i = i + 1;
        }
        out
    }
}

/// The flattened `[frequency, confidence]` pairs of the first `i`
/// frames of a batch run.
pub open spec fn batch_pairs(s: Seq<i64>, sr: int, frame: int, hop: int, th: int, i: int)
    -> Seq<i64>
    decreases i,
{
    if i <= 0 {
        Seq::empty()
    } else {
        let p = pitch_pair(batch_frame(s, frame, hop, i - 1), sr, frame, th);
        batch_pairs(s, sr, frame, hop, th, i - 1) + seq![p.0 as i64, p.1 as i64]
    }
}

/// The sample window frame `i` of a batch run sees: from `i * hop` to
/// one frame later, clipped to the end of the buffer.
pub open spec fn batch_frame(s: Seq<i64>, frame: int, hop: int, i: int) -> Seq<i64> {
    let start = i * hop;
    let end = if start + frame <= s.len() {
        start + frame
    } else {
        s.len() as int
    };
    s.subrange(start, end)
}

/// Autocorrelation of the first `n` samples at `lag`, summed directly.
fn autocorr_at(samples: &Vec<i64>, lag: usize, n: usize) -> (r: i64)
    requires
        samples_ok(samples@),
        lag <= n <= samples@.len(),
        n <= 16384,
    ensures
        r == autocorr(samples@, lag as int, n as int),
        -0x4000000000000 <= r <= 0x4000000000000,
{
    let mut r: i64 = 0;
    let mut j: usize = 0;
    let m = n - lag;
    while j < m
        invariant
            samples_ok(samples@),
            lag + m <= samples@.len(),
            lag <= 16384,
            m <= 16384,
            0 <= j <= m,
            r == ac_sum(samples@, lag as int, j as int),
            -0x1000000000int * j <= r <= 0x1000000000int * j,
        decreases m - j,
    {
        let a = samples[j];
        let b = samples[j + lag];
        proof {
            lemma_mul_bound(a as int, b as int, SAMPLE_LIMIT as int, SAMPLE_LIMIT as int);
        }
        r = r + a * b;
        j = j + 1;
    }
    proof {
        lemma_mul_bound(m as int, 0x1000000000, 16384, 0x1000000000);
    }
    r
}

/// The normalized difference values for every lag below `tau_max`.
fn cmnd_all(samples: &Vec<i64>, n: usize, tau_max: usize) -> (r: Vec<i64>)
    requires
        samples_ok(samples@),
        n <= samples@.len(),
        n <= 16384,
        tau_max == n / 2,
    ensures
        r@.len() == tau_max,
        forall|t: int| 0 <= t < tau_max
            ==> #[trigger] r@[t] == cmnd_at(samples@, n as int, t),
        forall|t: int| 0 <= t < tau_max
            ==> -CMND_LIMIT <= #[trigger] r@[t] <= CMND_LIMIT,
{
    let ghost s = samples@;
    let mut cm: Vec<i64> = Vec::new();
    if tau_max == 0 {
        return cm;
    }
    proof {
        lemma_div_range(n as int, 2, 0, 16384);
    }
    let r0 = autocorr_at(samples, 0, n);
    cm.push(65536);
    let mut rs: i128 = 0;
    let mut tau: usize = 1;
    while tau < tau_max
        invariant
            samples_ok(s),
            s == samples@,
            n <= s.len(),
            n <= 16384,
            1 <= tau_max == n / 2,
            1 <= tau <= tau_max,
            r0 == autocorr(s, 0, n as int),
            -0x4000000000000 <= r0 <= 0x4000000000000,
            cm@.len() == tau,
            rs == rsum(s, n as int, tau as int - 1),
            -(tau as int - 1) * 0x10000000000000 <= rs <= (tau as int - 1) * 0x10000000000000,
            forall|t: int| 0 <= t < tau ==> #[trigger] cm@[t] == cmnd_at(s, n as int, t),
            forall|t: int| 0 <= t < tau ==> -CMND_LIMIT <= #[trigger] cm@[t] <= CMND_LIMIT,
        decreases tau_max - tau,
    {
        let rt = autocorr_at(samples, tau, n);
        let d: i64 = 2 * (r0 - rt);
        proof {
            assert(d == diff_at(s, n as int, tau as int));
        }
        rs = rs + (d as i128);
        let c: i64;
        if rs > 0 {
            proof {
                lemma_mul_bound(d as int, tau as int, 0x10000000000000, 16384);
                lemma_mul_bound(d as int * tau as int, 65536, 0x10000000000000int * 16384,
                    65536);
                lemma_div_range(d as int * tau as int * 65536, rs as int,
                    -(0x10000000000000int * 16384 * 65536),
                    0x10000000000000int * 16384 * 65536);
            }
            let q = div_floor_i128((d as i128) * (tau as i128) * 65536, rs);
            c = if q < -(CMND_LIMIT as i128) {
                -CMND_LIMIT
            } else if q > CMND_LIMIT as i128 {
                CMND_LIMIT
            } else {
                q as i64
            };
        } else {
            c = 65536;
        }
        proof {
            assert(c == cmnd_at(s, n as int, tau as int));
        }
        cm.push(c);
        tau = tau + 1;
    }
    cm
}

/// On an exactly silent frame every difference value is zero, the
/// running sum never turns positive, the normalized difference stays
/// at the 1.0 fallback, and the tracker reports unvoiced `(0, 0)` for
/// any threshold at or below 1.0.
pub proof fn lemma_silence_unvoiced(s: Seq<i64>, sr: int, frame: int, th: int)
    requires
        forall|i: int| 0 <= i < s.len() ==> s[i] == 0,
        th <= 65536,
        500 <= sr,
    ensures
        pitch_pair(s, sr, frame, th) == (0int, 0int),
{
    let n = if s.len() < frame {
        s.len() as int
    } else {
        frame
    };
    let tau_max = n / 2;
    let minp = sr / 500;
    let maxp = sr / 50;
    let hi = if maxp < tau_max {
        maxp
    } else {
        tau_max
    };
    lemma_silent_no_dip(s, n, minp, hi, th);
}

/// Autocorrelation partial sums of an all-zero signal vanish.
pub proof fn lemma_zero_ac(s: Seq<i64>, lag: int, j: int)
    requires
        forall|i: int| 0 <= i < s.len() ==> s[i] == 0,
        0 <= lag,
        j + lag <= s.len(),
    ensures
        ac_sum(s, lag, j) == 0,
    decreases j,
{
    if j > 0 {
        lemma_zero_ac(s, lag, j - 1);
        assert(s[j - 1] == 0);
        assert(s[j - 1] * s[j - 1 + lag] == 0) by (nonlinear_arith)
            requires s[j - 1] == 0;
    }
}

proof fn lemma_zero_rsum(s: Seq<i64>, n: int, tau: int)
    requires
        forall|i: int| 0 <= i < s.len() ==> s[i] == 0,
        0 <= tau,
        n <= s.len(),
    ensures
        rsum(s, n, tau) == 0,
        forall|t: int| 0 <= t <= tau ==> cmnd_at(s, n, t) == 65536,
    decreases tau,
{
    if tau > 0 {
        lemma_zero_rsum(s, n, tau - 1);
        lemma_zero_ac(s, 0, n);
        lemma_zero_ac(s, tau, n - tau);
        assert(diff_at(s, n, tau) == 0);
        assert forall|t: int| 0 <= t <= tau implies cmnd_at(s, n, t) == 65536 by {
            if t == tau {
                assert(rsum(s, n, tau) == 0);
            }
        }
    }
}

proof fn lemma_silent_no_dip(s: Seq<i64>, n: int, tau: int, hi: int, th: int)
    requires
        forall|i: int| 0 <= i < s.len() ==> s[i] == 0,
        th <= 65536,
        0 <= tau,
        n <= s.len(),
    ensures
        dip_from(s, n, tau, hi, th) == -1,
    decreases hi - tau,
{
    if tau < hi {
        lemma_zero_rsum(s, n, tau);
        lemma_silent_no_dip(s, n, tau + 1, hi, th);
    }
}

} // verus!
