//! Spectral engine: Hann-windowed discrete Fourier transform, power
//! spectrum and its decibel form, all in Q16 fixed point.
//!
//! The window is computed once at construction. `power_spectrum` is a
//! total function over the input length: short input is zero-padded,
//! long input truncated, and the result always holds `size/2 + 1` bins,
//! bin `k` covering frequency `k * sample_rate / size`.

use crate::dbscale::{db_of, db_of_spec};
use crate::fixed::{div_floor_i128, lemma_div_range, lemma_mul_bound, q_mul};
use crate::trig::{cos_turn, cos_turn_q16, sin_turn, sin_turn_q16};
use crate::{samples_ok, SAMPLE_LIMIT};
use vstd::arithmetic::div_mod::{lemma_div_is_ordered, lemma_fundamental_div_mod_converse};
use vstd::prelude::*;

verus! {

/// Hann coefficient `0.5 * (1 - cos(2 pi i / (n - 1)))` in Q16.
pub open spec fn hann_q16(i: int, n: int) -> int {
    (65536 - cos_turn_q16((i * 65536) / (n - 1))) / 2
}

/// Windowed sample `i` of the transform input: the product of sample
/// and window inside the frame, zero in the zero-padded tail.
pub open spec fn win_sample(s: Seq<i64>, n: int, i: int) -> int {
    if 0 <= i < s.len() && i < n {
        q_mul(s[i] as int, hann_q16(i, n))
    } else {
        0
    }
}

/// Transform phase of bin `k`, sample `j`: `k * j / n` turns in Q16.
pub open spec fn bin_phase(k: int, j: int, n: int) -> int {
    (((k * j) % n) * 65536) / n
}

/// Real part of bin `k`, summed over the first `j` samples.
pub open spec fn dft_re(s: Seq<i64>, n: int, k: int, j: int) -> int
    decreases j,
{
    if j <= 0 {
        0
    } else {
        dft_re(s, n, k, j - 1)
            + q_mul(win_sample(s, n, j - 1), cos_turn_q16(bin_phase(k, j - 1, n)))
    }
}

/// Imaginary part of bin `k` (up to sign, which the power cancels),
/// summed over the first `j` samples.
pub open spec fn dft_im(s: Seq<i64>, n: int, k: int, j: int) -> int
    decreases j,
{
    if j <= 0 {
        0
    } else {
        dft_im(s, n, k, j - 1)
            + q_mul(win_sample(s, n, j - 1), sin_turn_q16(bin_phase(k, j - 1, n)))
    }
}

/// Power of bin `k`: `(re^2 + im^2) / n`, scaled back to Q16.
pub open spec fn spec_power(s: Seq<i64>, n: int, k: int) -> int {
    let re = dft_re(s, n, k, n);
    let im = dft_im(s, n, k, n);
    ((re * re + im * im) / 65536) / n
}

pub struct FftProcessor {
    pub size: usize,
    pub window: Vec<i64>,
}

impl FftProcessor {
    /// The frame size is fixed at construction and the stored window
    /// holds exactly the Hann coefficients for that size.
    pub open spec fn wf(self) -> bool {
        &&& 2 <= self.size <= 4096
        &&& self.window@.len() == self.size
        &&& forall|i: int| 0 <= i < self.size
            ==> #[trigger] self.window@[i] == hann_q16(i, self.size as int)
    }

    /// Builds the engine and its Hann window for frame size `size`.
    pub fn new(size: usize) -> (r: FftProcessor)
        requires
            2 <= size <= 4096,
        ensures
            r.wf(),
            r.size == size,
    {
        let mut window: Vec<i64> = Vec::new();
        let mut i: usize = 0;
        while i < size
            invariant
                2 <= size <= 4096,
                0 <= i <= size,
                window@.len() == i,
                forall|j: int| 0 <= j < i
                    ==> #[trigger] window@[j] == hann_q16(j, size as int),
            decreases size - i,
        {
            let p = (i as i64 * 65536) / ((size - 1) as i64);
            proof {
                lemma_div_range(i as int * 65536, size as int - 1, 0, 0x10000000);
            }
            let c = cos_turn(p);
            window.push((65536 - c) / 2);
            proof {
                lemma_div_range(65536 - c as int, 2, 0, 0x20000);
            }
            i = i + 1;
        }
        FftProcessor { size, window }
    }

    /// Power spectrum of the windowed frame: always `size/2 + 1`
    /// nonnegative bins, whatever the input length.
    pub fn power_spectrum(&self, samples: &Vec<i64>) -> (r: Vec<i64>)
        requires
            self.wf(),
            samples_ok(samples@),
        ensures
            r@.len() == self.size / 2 + 1,
            forall|k: int| 0 <= k < r@.len()
                ==> #[trigger] r@[k] == spec_power(samples@, self.size as int, k),
            forall|k: int| 0 <= k < r@.len() ==> 0 <= #[trigger] r@[k] <= 0x200000000000,
    {
        let n = self.size;
        let ghost s = samples@;
        let ws = self.windowed(samples);
        let nbins = n / 2 + 1;
        let mut out: Vec<i64> = Vec::new();
        let mut k: usize = 0;
        while k < nbins
            invariant
                self.wf(),
                n == self.size,
                2 <= n <= 4096,
                nbins == n / 2 + 1,
                ws@.len() == n,
                forall|j: int| 0 <= j < n
                    ==> #[trigger] ws@[j] == win_sample(s, n as int, j),
                forall|j: int| 0 <= j < n ==> -0x40000 <= #[trigger] ws@[j] <= 0x40000,
                0 <= k <= nbins,
                out@.len() == k,
                forall|b: int| 0 <= b < k
                    ==> #[trigger] out@[b] == spec_power(s, n as int, b),
                forall|b: int| 0 <= b < k ==> 0 <= #[trigger] out@[b] <= 0x200000000000,
            decreases nbins - k,
        {
            let (re, im) = self.bin_sums(&ws, k, Ghost(s));
            proof {
                lemma_mul_bound(re as int, re as int, 0x40000000, 0x40000000);
                lemma_mul_bound(im as int, im as int, 0x40000000, 0x40000000);
                assert(re as int * re as int >= 0) by (nonlinear_arith);
                assert(im as int * im as int >= 0) by (nonlinear_arith);
            }
            let p2: i128 = (re as i128) * (re as i128) + (im as i128) * (im as i128);
            proof {
                lemma_div_range(p2 as int, 65536, 0, 0x2000000000000000);
            }
            let q1 = div_floor_i128(p2, 65536);
            proof {
                lemma_div_range(q1 as int, n as int, 0, 0x2000000000000000);
                lemma_div_is_ordered(q1 as int, 0x200000000000int * 65536, 65536);
                lemma_div_is_ordered(q1 as int / (n as int), q1 as int, 1);
                assert(q1 as int / (n as int) <= q1 as int) by {
                    lemma_div_range(q1 as int, n as int, 0, q1 as int);
                }
                lemma_div_is_ordered(p2 as int, 0x2000000000000000, 65536);
            }
            let q2 = div_floor_i128(q1, n as i128);
            proof {
                lemma_div_range(q1 as int, n as int, 0, 0x2000000000000000int / 65536);
                lemma_div_range(q1 as int / (n as int), 1, 0, 0x200000000000);
            }
            out.push(q2 as i64);
            k = k + 1;
        }
        out
    }

    /// Power spectrum mapped to decibels, with the -100 dB floor on
    /// exactly silent bins.
    pub fn magnitude_db(&self, samples: &Vec<i64>) -> (r: Vec<i64>)
        requires
            self.wf(),
            samples_ok(samples@),
        ensures
            r@.len() == self.size / 2 + 1,
            forall|k: int| 0 <= k < r@.len()
                ==> #[trigger] r@[k]
                    == db_of_spec(spec_power(samples@, self.size as int, k), 16),
    {
        let p = self.power_spectrum(samples);
        let ghost s = samples@;
        let mut out: Vec<i64> = Vec::new();
        let mut k: usize = 0;
        while k < p.len()
            invariant
                p@.len() == self.size / 2 + 1,
                forall|b: int| 0 <= b < p@.len()
                    ==> #[trigger] p@[b] == spec_power(s, self.size as int, b),
                forall|b: int| 0 <= b < p@.len() ==> 0 <= #[trigger] p@[b] <= 0x200000000000,
                0 <= k <= p@.len(),
                out@.len() == k,
                forall|b: int| 0 <= b < k
                    ==> #[trigger] out@[b] == db_of_spec(spec_power(s, self.size as int, b), 16),
            decreases p@.len() - k,
        {
            out.push(db_of(p[k], 16));
            k = k + 1;
        }
        out
    }

    /// Applies the Hann window over the frame, zero-padding past the
    /// end of the input.
    fn windowed(&self, samples: &Vec<i64>) -> (r: Vec<i64>)
        requires
            self.wf(),
            samples_ok(samples@),
        ensures
            r@.len() == self.size,
            forall|j: int| 0 <= j < self.size
                ==> #[trigger] r@[j] == win_sample(samples@, self.size as int, j),
            forall|j: int| 0 <= j < self.size ==> -0x40000 <= #[trigger] r@[j] <= 0x40000,
    {
        let n = self.size;
        let mut r: Vec<i64> = Vec::new();
        let mut j: usize = 0;
        while j < n
            invariant
                self.wf(),
                n == self.size,
                samples_ok(samples@),
                0 <= j <= n,
                r@.len() == j,
                forall|t: int| 0 <= t < j
                    ==> #[trigger] r@[t] == win_sample(samples@, n as int, t),
                forall|t: int| 0 <= t < j ==> -0x40000 <= #[trigger] r@[t] <= 0x40000,
            decreases n - j,
        {
            if j < samples.len() {
                let w = self.window[j];
                proof {
                    lemma_hann_range(j as int, n as int);
                    lemma_mul_bound(samples@[j as int] as int, w as int,
                        SAMPLE_LIMIT as int, 65536);
                    lemma_div_is_ordered(samples@[j as int] as int * w as int,
                        SAMPLE_LIMIT as int * 65536, 65536);
                    lemma_div_is_ordered(-(SAMPLE_LIMIT as int * 65536),
                        samples@[j as int] as int * w as int, 65536);
                }
                r.push(crate::fixed::qmul(samples[j], w));
            } else {
                r.push(0);
            }
            j = j + 1;
        }
        r
    }

    /// Real and imaginary correlation sums of bin `k`.
    fn bin_sums(&self, ws: &Vec<i64>, k: usize, Ghost(s): Ghost<Seq<i64>>) -> (r: (i64, i64))
        requires
            2 <= self.size <= 4096,
            ws@.len() == self.size,
            k <= self.size,
            forall|j: int| 0 <= j < self.size
                ==> #[trigger] ws@[j] == win_sample(s, self.size as int, j),
            forall|j: int| 0 <= j < self.size ==> -0x40000 <= #[trigger] ws@[j] <= 0x40000,
        ensures
            r.0 == dft_re(s, self.size as int, k as int, self.size as int),
            r.1 == dft_im(s, self.size as int, k as int, self.size as int),
            -0x40000000 <= r.0 <= 0x40000000,
            -0x40000000 <= r.1 <= 0x40000000,
    {
        let n = self.size;
        let mut re: i64 = 0;
        let mut im: i64 = 0;
        let mut j: usize = 0;
        while j < n
            invariant
                2 <= n <= 4096,
                n == self.size,
                k <= n,
                ws@.len() == n,
                forall|t: int| 0 <= t < n
                    ==> #[trigger] ws@[t] == win_sample(s, n as int, t),
                forall|t: int| 0 <= t < n ==> -0x40000 <= #[trigger] ws@[t] <= 0x40000,
                0 <= j <= n,
                re == dft_re(s, n as int, k as int, j as int),
                im == dft_im(s, n as int, k as int, j as int),
                -0x40000int * j <= re <= 0x40000int * j,
                -0x40000int * j <= im <= 0x40000int * j,
            decreases n - j,
        {
            proof {
                lemma_mul_bound(k as int, j as int, 4096, 4096);
            }
            let ph = (((k * j) % n) as i64 * 65536) / (n as i64);
            proof {
                lemma_div_range(((k * j) as int % n as int) * 65536, n as int, 0,
                    4096int * 65536int);
                assert(ph == bin_phase(k as int, j as int, n as int));
                lemma_mul_bound(j as int + 1, 0x40000, 4096, 0x40000);
            }
            let c = cos_turn(ph);
            let sv = sin_turn(ph);
            proof {
                lemma_mul_bound(ws@[j as int] as int, c as int, 0x40000, 65536);
                lemma_div_is_ordered(ws@[j as int] as int * c as int,
                    0x40000int * 65536, 65536);
                lemma_div_is_ordered(-(0x40000int * 65536),
                    ws@[j as int] as int * c as int, 65536);
                lemma_mul_bound(ws@[j as int] as int, sv as int, 0x40000, 65536);
                lemma_div_is_ordered(ws@[j as int] as int * sv as int,
                    0x40000int * 65536, 65536);
                lemma_div_is_ordered(-(0x40000int * 65536),
                    ws@[j as int] as int * sv as int, 65536);
            }
            re = re + crate::fixed::qmul(ws[j], c);
            im = im + crate::fixed::qmul(ws[j], sv);
            j = j + 1;
        }
        proof {
            lemma_mul_bound(j as int, 0x40000, 4096, 0x40000);
        }
        (re, im)
    }
}

/// Sum of the windowed samples over the first `j` slots.
pub open spec fn win_sum(s: Seq<i64>, n: int, j: int) -> int
    decreases j,
{
    if j <= 0 {
        0
    } else {
        win_sum(s, n, j - 1) + win_sample(s, n, j - 1)
    }
}

/// Bin zero of the transform is the plain sum of the windowed samples,
/// with no imaginary part: a constant (DC) signal's power lands there
/// as the scaled square of that sum.
pub proof fn lemma_bin_zero_collects_the_windowed_sum(s: Seq<i64>, n: int)
    requires
        2 <= n,
    ensures
        dft_re(s, n, 0, n) == win_sum(s, n, n),
        dft_im(s, n, 0, n) == 0,
        spec_power(s, n, 0) == (win_sum(s, n, n) * win_sum(s, n, n) / 65536) / n,
{
    lemma_bin_zero_sums(s, n, n);
}

proof fn lemma_bin_zero_sums(s: Seq<i64>, n: int, j: int)
    requires
        2 <= n,
    ensures
        dft_re(s, n, 0, j) == win_sum(s, n, j),
        dft_im(s, n, 0, j) == 0,
    decreases j,
{
    if j > 0 {
        lemma_bin_zero_sums(s, n, j - 1);
        assert(0 * (j - 1) == 0) by (nonlinear_arith);
        assert(bin_phase(0, j - 1, n) == 0);
        assert(cos_turn_q16(0) == 65536) by {
            assert(16384int % 65536 == 16384);
            assert(16384int / 16384 == 1 && 16384int % 16384 == 0);
            assert(q_mul(65536, 65536) == 65536);
            assert(q_mul(65536, 4766) == 4766);
            assert(q_mul(65536, 42159 - 4766) == 37393);
            assert(q_mul(65536, 102940 - 37393) == 65547);
        }
        assert(sin_turn_q16(0) == 0) by {
            assert(0int % 65536 == 0);
            assert(0int / 16384 == 0 && 0int % 16384 == 0);
            assert(q_mul(0, 0) == 0);
            assert(q_mul(0, 42159 - q_mul(0, 4766)) == 0) by {
                assert(0int * (42159 - q_mul(0, 4766)) == 0) by (nonlinear_arith);
            }
            assert(q_mul(0, 102940 - q_mul(0, 42159 - q_mul(0, 4766))) == 0) by {
                assert(0int * (102940 - q_mul(0, 42159 - q_mul(0, 4766))) == 0)
                    by (nonlinear_arith);
            }
        }
        let w = win_sample(s, n, j - 1);
        assert(q_mul(w, 65536) == w) by {
            lemma_fundamental_div_mod_converse(w * 65536, 65536, w, 0);
        }
        assert(q_mul(w, 0) == 0) by {
            assert(w * 0 == 0) by (nonlinear_arith);
        }
    }
}

/// The Hann coefficient stays within [0, 65536].
proof fn lemma_hann_range(i: int, n: int)
    requires
        2 <= n,
        0 <= i,
    ensures
        0 <= hann_q16(i, n) <= 65536,
{
    crate::trig::lemma_sin_phase_range((((i * 65536) / (n - 1)) + 16384) % 65536);
}

} // verus!
