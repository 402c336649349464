//! Voice activity detection: frame-wise energy and zero-crossing test
//! with hangover hysteresis, and conversion of the flag sequence into
//! sample-index segments.
//!
//! A frame is speech when its energy in dB exceeds the energy threshold
//! and its zero-crossing rate stays below the rate threshold. A speech
//! frame arms a hangover counter; the following `hangover_frames` frames
//! are reported as speech even when they individually fail the test, so
//! the trailing edge of an utterance is not cut off.

use crate::dbscale::{db_of, db_of_spec, DB_FLOOR};
use crate::fixed::lemma_mul_bound;
use crate::{samples_ok, MAX_INPUT_LEN, SAMPLE_LIMIT};
use vstd::arithmetic::div_mod::{lemma_div_is_ordered, lemma_fundamental_div_mod};
use vstd::arithmetic::mul::lemma_mul_inequality;
use vstd::prelude::*;

verus! {

pub struct VoiceActivityDetector {
    pub frame_size: usize,
    pub hop_size: usize,
    pub energy_threshold: i64,
    pub zcr_threshold: i64,
    pub hangover_frames: usize,
}

/// Sum of squared samples over `[start, end)`.
pub open spec fn energy_sum(s: Seq<i64>, start: int, end: int) -> int
    decreases end - start,
{
    if start >= end {
        0
    } else {
        energy_sum(s, start, end - 1) + s[end - 1] * s[end - 1]
    }
}

/// Number of adjacent sign changes inside `[start, end)`.
pub open spec fn zc_count(s: Seq<i64>, start: int, end: int) -> int
    decreases end - start,
{
    if end - start < 2 {
        0
    } else {
        zc_count(s, start, end - 1) + if (s[end - 2] >= 0) != (s[end - 1] >= 0) {
            1int
        } else {
            0int
        }
    }
}

/// Number of analysis frames a buffer of `len` samples yields: one
/// frame per hop, the final frame clipped to the buffer end, and a
/// single (possibly short) frame when the buffer is not longer than
/// one frame.
pub open spec fn num_frames(len: int, frame: int, hop: int) -> int {
    (if len > frame {
        (len - frame) / hop
    } else {
        0
    }) + 1
}

/// The raw per-frame decision, before hysteresis: the frame's mean
/// energy in dB exceeds the energy threshold and its zero-crossing
/// rate is below the rate threshold. An empty frame is never speech.
pub open spec fn frame_is_speech(s: Seq<i64>, start: int, end: int, eth: int, zth: int) -> bool {
    &&& end > start
    &&& db_of_spec(energy_sum(s, start, end) / (end - start), 32) > eth
    &&& 65536 * zc_count(s, start, end) < zth * (end - start)
}

impl VoiceActivityDetector {
    /// Configuration limits every method relies on.
    pub open spec fn wf(self) -> bool {
        &&& 1 <= self.frame_size <= 0x100000
        &&& 1 <= self.hop_size <= MAX_INPUT_LEN
        &&& -0x100000000000 <= self.energy_threshold <= 0x100000000000
        &&& -0x80000000 <= self.zcr_threshold <= 0x80000000
        &&& self.hangover_frames <= 0x100000
    }

    /// End of frame `i`'s sample range.
    pub open spec fn frame_end(self, len: int, start: int) -> int {
        if start + self.frame_size <= len {
            start + self.frame_size
        } else {
            len
        }
    }

    /// Raw decision for frame `i`.
    pub open spec fn raw(self, s: Seq<i64>, i: int) -> bool {
        let start = i * self.hop_size;
        frame_is_speech(s, start, self.frame_end(s.len() as int, start),
            self.energy_threshold as int, self.zcr_threshold as int)
    }

    /// Hangover counter before frame `i` is emitted: a raw speech frame
    /// re-arms it to `hangover_frames`; a non-speech frame consumes one.
    pub open spec fn hang(self, s: Seq<i64>, i: int) -> int
        decreases i,
    {
        if i <= 0 {
            0
        } else if self.raw(s, i - 1) {
            self.hangover_frames as int
        } else if self.hang(s, i - 1) > 0 {
            self.hang(s, i - 1) - 1
        } else {
            0
        }
    }

    /// Emitted flag for frame `i`: raw speech, or hangover still armed.
    pub open spec fn flag(self, s: Seq<i64>, i: int) -> bool {
        self.raw(s, i) || self.hang(s, i) > 0
    }

    /// Segment endpoints produced by scanning flags from frame `i`
    /// with the scan state `(in_seg, seg_start)`: each maximal run of
    /// set flags contributes its first frame's start sample and the
    /// sample index one hop past its last frame; a run still open at
    /// the end of the signal closes at `num_frames * hop`.
    pub open spec fn seg_points(self, s: Seq<i64>, i: int, in_seg: bool, seg_start: int)
        -> Seq<u32>
        decreases num_frames(s.len() as int, self.frame_size as int, self.hop_size as int) - i,
    {
        let nf = num_frames(s.len() as int, self.frame_size as int, self.hop_size as int);
        if i < 0 || i >= nf {
            if in_seg {
                seq![seg_start as u32, (nf * self.hop_size) as u32]
            } else {
                Seq::empty()
            }
        } else if self.flag(s, i) && !in_seg {
            self.seg_points(s, i + 1, true, i * self.hop_size)
        } else if !self.flag(s, i) && in_seg {
            seq![seg_start as u32, (i * self.hop_size) as u32]
                + self.seg_points(s, i + 1, false, 0)
        } else {
            self.seg_points(s, i + 1, in_seg, seg_start)
        }
    }

    /// A detector with the default thresholds: -40 dB energy, 0.1
    /// zero-crossing rate, five frames of hangover.
    pub fn new(frame_size: usize, hop_size: usize) -> (r: VoiceActivityDetector)
        requires
            1 <= frame_size <= 0x100000,
            1 <= hop_size <= MAX_INPUT_LEN,
        ensures
            r.wf(),
            r.frame_size == frame_size,
            r.hop_size == hop_size,
            r.energy_threshold == -2621440,
            r.zcr_threshold == 6554,
            r.hangover_frames == 5,
    {
        VoiceActivityDetector {
            frame_size,
            hop_size,
            energy_threshold: -2621440,
            zcr_threshold: 6554,
            hangover_frames: 5,
        }
    }

    /// Replaces both decision thresholds.
    pub fn set_thresholds(&mut self, energy_db: i64, zcr: i64)
        requires
            old(self).wf(),
            -0x100000000000 <= energy_db <= 0x100000000000,
            -0x80000000 <= zcr <= 0x80000000,
        ensures
            final(self).wf(),
            final(self).energy_threshold == energy_db,
            final(self).zcr_threshold == zcr,
            final(self).frame_size == old(self).frame_size,
            final(self).hop_size == old(self).hop_size,
            final(self).hangover_frames == old(self).hangover_frames,
    {
        self.energy_threshold = energy_db;
        self.zcr_threshold = zcr;
    }

    /// One binary flag per frame, hangover applied.
    pub fn detect(&self, samples: &Vec<i64>) -> (r: Vec<u8>)
        requires
            self.wf(),
            samples@.len() <= MAX_INPUT_LEN,
            samples_ok(samples@),
        ensures
            r@.len() == num_frames(samples@.len() as int, self.frame_size as int,
                self.hop_size as int),
            forall|i: int| 0 <= i < r@.len()
                ==> r@[i] == (if self.flag(samples@, i) { 1u8 } else { 0u8 }),
    {
        let len = samples.len();
        let nf: usize = (if len > self.frame_size {
            (len - self.frame_size) / self.hop_size
        } else {
            0
        }) + 1;
        let mut out: Vec<u8> = Vec::new();
        let mut counter: usize = 0;
        let mut i: usize = 0;
        while i < nf
            invariant
                self.wf(),
                samples@.len() == len <= MAX_INPUT_LEN,
                samples_ok(samples@),
                nf == num_frames(len as int, self.frame_size as int, self.hop_size as int),
                nf <= MAX_INPUT_LEN + 1,
                0 <= i <= nf,
                out@.len() == i,
                counter == self.hang(samples@, i as int),
                0 <= counter <= self.hangover_frames,
                forall|j: int| 0 <= j < i
                    ==> out@[j] == (if self.flag(samples@, j) { 1u8 } else { 0u8 }),
            decreases nf - i,
        {
            proof {
                lemma_start_bound(len as int, self.frame_size as int, self.hop_size as int,
                    i as int);
            }
            let start = i * self.hop_size;
            let end = if start + self.frame_size <= len {
                start + self.frame_size
            } else {
                len
            };
            let is_speech = if end > start {
                let esum = frame_energy(samples, start, end);
                let mean = ((esum as u64) / ((end - start) as u64)) as i64;
                proof {
                    lemma_div_is_ordered(0, esum as int, end - start as int);
                    lemma_div_is_ordered(esum as int, 0x100000000000000, end - start as int);
                }
                let db = db_of(mean, 32);
                let zc = frame_crossings(samples, start, end);
                proof {
                    lemma_mul_bound(self.zcr_threshold as int, (end - start) as int,
                        0x80000000, 0x100000);
                }
                db > self.energy_threshold
                    && 65536 * (zc as i64) < self.zcr_threshold * ((end - start) as i64)
            } else {
                false
            };
            proof {
                assert(is_speech == self.raw(samples@, i as int));
            }
            if is_speech {
                counter = self.hangover_frames;
                out.push(1);
            } else if counter > 0 {
                counter = counter - 1;
                out.push(1);
            } else {
                out.push(0);
            }
            i = i + 1;
        }
        out
    }

    /// Start and end sample indices of each maximal speech run, as a
    /// flattened sequence of pairs.
    pub fn get_segments(&self, samples: &Vec<i64>) -> (r: Vec<u32>)
        requires
            self.wf(),
            samples@.len() <= MAX_INPUT_LEN,
            samples_ok(samples@),
        ensures
            r@ == self.seg_points(samples@, 0, false, 0),
    {
        let flags = self.detect(samples);
        let nf = flags.len();
        let ghost s = samples@;
        proof {
            lemma_start_bound(s.len() as int, self.frame_size as int, self.hop_size as int,
                nf as int - 1);
            assert(nf as int * self.hop_size
                == (nf as int - 1) * self.hop_size + self.hop_size) by (nonlinear_arith);
        }
        let mut out: Vec<u32> = Vec::new();
        let mut in_seg = false;
        let mut seg_start: usize = 0;
        let mut i: usize = 0;
        while i < nf
            invariant
                self.wf(),
                s == samples@,
                s.len() <= MAX_INPUT_LEN,
                nf == flags@.len(),
                nf == num_frames(s.len() as int, self.frame_size as int, self.hop_size as int),
                forall|j: int| 0 <= j < nf
                    ==> flags@[j] == (if self.flag(s, j) { 1u8 } else { 0u8 }),
                0 <= i <= nf,
                in_seg ==> seg_start <= (i as int - 1) * self.hop_size,
                seg_start <= 0xffffffff,
                nf * self.hop_size <= 0xffffffff,
                out@ + self.seg_points(s, i as int, in_seg, seg_start as int)
                    == self.seg_points(s, 0, false, 0),
            decreases nf - i,
        {
            proof {
                lemma_start_bound(s.len() as int, self.frame_size as int,
                    self.hop_size as int, i as int);
                lemma_mul_inequality(i as int, nf as int, self.hop_size as int);
                lemma_mul_inequality(i as int - 1, i as int, self.hop_size as int);
            }
            let v = flags[i];
            if v == 1 && !in_seg {
                seg_start = i * self.hop_size;
                in_seg = true;
            } else if v == 0 && in_seg {
                let ghost before = out@;
                out.push(seg_start as u32);
                out.push((i * self.hop_size) as u32);
                in_seg = false;
                proof {
                    assert(out@ =~= before + seq![seg_start as u32,
                        ((i as int * self.hop_size) as u32)]);
                    assert(before + (seq![seg_start as u32,
                        ((i as int * self.hop_size) as u32)]
                        + self.seg_points(s, i as int + 1, false, 0))
                        =~= out@ + self.seg_points(s, i as int + 1, false, 0));
                }
                seg_start = 0;
            }
            i = i + 1;
        }
        if in_seg {
            let ghost before = out@;
            out.push(seg_start as u32);
            out.push((nf * self.hop_size) as u32);
            proof {
                assert(out@ =~= before + seq![seg_start as u32,
                    ((nf as int * self.hop_size) as u32)]);
            }
        }
        proof {
            assert(out@ =~= self.seg_points(s, 0, false, 0));
        }
        out
    }
}

/// Sum of squared samples over `[start, end)` of `samples`.
fn frame_energy(samples: &Vec<i64>, start: usize, end: usize) -> (r: i64)
    requires
        samples_ok(samples@),
        start <= end <= samples@.len(),
        end - start <= 0x100000,
    ensures
        r == energy_sum(samples@, start as int, end as int),
        0 <= r <= 0x100000000000000,
{
    let mut r: i64 = 0;
    let mut j = start;
    while j < end
        invariant
            samples_ok(samples@),
            start <= j <= end <= samples@.len(),
            end - start <= 0x100000,
            r == energy_sum(samples@, start as int, j as int),
            0 <= r <= (j - start) * 0x1000000000,
        decreases end - j,
    {
        let x = samples[j];
        proof {
            lemma_mul_bound(x as int, x as int, SAMPLE_LIMIT as int, SAMPLE_LIMIT as int);
            assert(x as int * x as int >= 0) by (nonlinear_arith);
        }
        r = r + x * x;
        j = j + 1;
    }
    proof {
        lemma_mul_inequality((j - start) as int, 0x100000, 0x1000000000);
    }
    r
}

/// Number of adjacent sign changes over `[start, end)` of `samples`.
fn frame_crossings(samples: &Vec<i64>, start: usize, end: usize) -> (r: usize)
    requires
        start <= end <= samples@.len(),
        end - start <= 0x100000,
    ensures
        r == zc_count(samples@, start as int, end as int),
        r <= end - start,
{
    let mut r: usize = 0;
    if end - start < 2 {
        return r;
    }
    let mut j = start + 1;
    while j < end
        invariant
            start + 1 <= j <= end <= samples@.len(),
            r == zc_count(samples@, start as int, j as int),
            r <= j - start,
        decreases end - j,
    {
        if (samples[j - 1] >= 0) != (samples[j] >= 0) {
            r = r + 1;
        }
        j = j + 1;
    }
    r
}

/// A frame index below `num_frames` starts no later than the last
/// whole frame fits, so every sample index it touches is in range.
pub proof fn lemma_start_bound(len: int, frame: int, hop: int, i: int)
    requires
        1 <= hop,
        1 <= frame,
        0 <= i,
        i < num_frames(len, frame, hop),
    ensures
        i * hop <= if len > frame { len - frame } else { 0 },
{
    if len > frame {
        let q = (len - frame) / hop;
        lemma_fundamental_div_mod(len - frame, hop);
        lemma_mul_inequality(i, q, hop);
        assert(q * hop <= len - frame);
    } else {
        assert(i == 0);
    }
}

/// A segment list is a flattened sequence of (start, end) pairs:
/// even in length, strictly ascending throughout, so the segments are
/// non-empty, non-overlapping and in order.
pub proof fn lemma_segments_disjoint_ascending(d: VoiceActivityDetector, s: Seq<i64>)
    requires
        d.wf(),
        s.len() <= MAX_INPUT_LEN,
    ensures
        d.seg_points(s, 0, false, 0).len() % 2 == 0,
        forall|a: int, b: int|
            0 <= a < b < d.seg_points(s, 0, false, 0).len()
                ==> d.seg_points(s, 0, false, 0)[a] < d.seg_points(s, 0, false, 0)[b],
{
    let nf = num_frames(s.len() as int, d.frame_size as int, d.hop_size as int);
    lemma_start_bound(s.len() as int, d.frame_size as int, d.hop_size as int, nf - 1);
    assert(nf * d.hop_size == (nf - 1) * d.hop_size + d.hop_size) by (nonlinear_arith);
    lemma_seg_points_ordered(d, s, 0, false, 0);
}

proof fn lemma_seg_points_ordered(d: VoiceActivityDetector, s: Seq<i64>, i: int, in_seg: bool,
    st: int)
    requires
        d.wf(),
        0 <= i <= num_frames(s.len() as int, d.frame_size as int, d.hop_size as int),
        num_frames(s.len() as int, d.frame_size as int, d.hop_size as int) * d.hop_size
            <= 0xffffffff,
        in_seg ==> 0 <= st <= (i - 1) * d.hop_size,
    ensures
        d.seg_points(s, i, in_seg, st).len() % 2 == 0,
        forall|a: int, b: int|
            0 <= a < b < d.seg_points(s, i, in_seg, st).len()
                ==> d.seg_points(s, i, in_seg, st)[a] < d.seg_points(s, i, in_seg, st)[b],
        in_seg ==> d.seg_points(s, i, in_seg, st).len() >= 2
            && d.seg_points(s, i, in_seg, st)[0] == st,
        forall|a: int|
            (if in_seg { 1int } else { 0int }) <= a < d.seg_points(s, i, in_seg, st).len()
                ==> d.seg_points(s, i, in_seg, st)[a] >= i * d.hop_size,
    decreases num_frames(s.len() as int, d.frame_size as int, d.hop_size as int) - i,
{
    let nf = num_frames(s.len() as int, d.frame_size as int, d.hop_size as int);
    let hop = d.hop_size as int;
    lemma_mul_inequality(i - 1, i, hop);
    lemma_mul_inequality(i - 1, nf, hop);
    lemma_mul_inequality(i, i + 1, hop);
    lemma_mul_inequality(i, nf, hop);
    if i < nf {
        lemma_mul_inequality(i + 1, nf, hop);
    }
    assert((i + 1) * hop == i * hop + hop) by (nonlinear_arith);
    assert(i * hop == (i - 1) * hop + hop) by (nonlinear_arith);
    assert(i * hop >= 0) by (nonlinear_arith)
        requires i >= 0 && hop >= 1;
    assert(0 <= i * hop <= 0xffffffff);
    if in_seg {
        assert(0 <= st <= 0xffffffff);
    }
    if i >= nf {
        if in_seg {
            assert(st <= (i - 1) * hop < i * hop == nf * hop);
            assert(((st as u32) as int) == st);
            assert((((nf * hop) as u32) as int) == nf * hop);
        }
    } else if d.flag(s, i) && !in_seg {
        lemma_seg_points_ordered(d, s, i + 1, true, i * hop);
    } else if !d.flag(s, i) && in_seg {
        lemma_seg_points_ordered(d, s, i + 1, false, 0);
        let tail = d.seg_points(s, i + 1, false, 0);
        let r = d.seg_points(s, i, in_seg, st);
        assert(((st as u32) as int) == st);
        assert((((i * hop) as u32) as int) == i * hop);
        assert(r == seq![st as u32, (i * hop) as u32] + tail);
        assert(r.len() == 2 + tail.len());
        assert forall|a: int, b: int| 0 <= a < b < r.len() implies r[a] < r[b] by {
            if b >= 2 {
                assert(r[b] == tail[b - 2]);
                if a >= 2 {
                    assert(r[a] == tail[a - 2]);
                } else {
                    assert(tail[b - 2] >= (i + 1) * hop);
                }
            }
        }
    } else {
        lemma_seg_points_ordered(d, s, i + 1, in_seg, st);
    }
}

/// Silence never trips the detector: on an all-zero signal with an
/// energy threshold at or above the -100 dB zero-signal floor, every
/// frame flag is clear and the segment list is empty.
pub proof fn lemma_silence_has_no_segments(d: VoiceActivityDetector, s: Seq<i64>)
    requires
        d.wf(),
        forall|i: int| 0 <= i < s.len() ==> s[i] == 0,
        d.energy_threshold >= DB_FLOOR,
    ensures
        forall|i: int| 0 <= i ==> #[trigger] d.flag(s, i) == false,
        d.seg_points(s, 0, false, 0) == Seq::<u32>::empty(),
{
    assert forall|i: int| 0 <= i implies #[trigger] d.flag(s, i) == false by {
        lemma_silence_flags(d, s, i);
    }
    lemma_no_flags_no_segments(d, s, 0);
}

proof fn lemma_zero_energy(s: Seq<i64>, start: int, end: int)
    requires
        forall|i: int| 0 <= i < s.len() ==> s[i] == 0,
        0 <= start,
        end <= s.len(),
    ensures
        energy_sum(s, start, end) == 0,
    decreases end - start,
{
    if start < end {
        lemma_zero_energy(s, start, end - 1);
    }
}

proof fn lemma_silence_raw(d: VoiceActivityDetector, s: Seq<i64>, i: int)
    requires
        d.wf(),
        forall|i: int| 0 <= i < s.len() ==> s[i] == 0,
        d.energy_threshold >= DB_FLOOR,
        0 <= i,
    ensures
        !d.raw(s, i),
{
    let start = i * d.hop_size;
    let end = d.frame_end(s.len() as int, start);
    assert(start >= 0) by (nonlinear_arith)
        requires i >= 0 && d.hop_size >= 1 && start == i * d.hop_size;
    if end > start {
        lemma_zero_energy(s, start, end);
        assert(energy_sum(s, start, end) / (end - start) == 0) by {
            lemma_div_is_ordered(0, 0, end - start);
        }
        assert(db_of_spec(0, 32) == DB_FLOOR);
    }
}

proof fn lemma_silence_flags(d: VoiceActivityDetector, s: Seq<i64>, i: int)
    requires
        d.wf(),
        forall|i: int| 0 <= i < s.len() ==> s[i] == 0,
        d.energy_threshold >= DB_FLOOR,
        0 <= i,
    ensures
        !d.flag(s, i),
        d.hang(s, i) == 0,
    decreases i,
{
    lemma_silence_raw(d, s, i);
    if i > 0 {
        lemma_silence_flags(d, s, i - 1);
        lemma_silence_raw(d, s, i - 1);
    }
}

proof fn lemma_no_flags_no_segments(d: VoiceActivityDetector, s: Seq<i64>, i: int)
    requires
        forall|j: int| 0 <= j ==> #[trigger] d.flag(s, j) == false,
    ensures
        d.seg_points(s, i, false, 0) == Seq::<u32>::empty(),
    decreases num_frames(s.len() as int, d.frame_size as int, d.hop_size as int) - i,
{
    let nf = num_frames(s.len() as int, d.frame_size as int, d.hop_size as int);
    if 0 <= i < nf {
        lemma_no_flags_no_segments(d, s, i + 1);
    }
}

/// Hangover: after a raw speech frame `i`, each of the next
/// `hangover_frames` frames is reported as speech even when its own
/// test fails; the frame after the hangover window is reported silent
/// again if its test fails.
pub proof fn lemma_hangover(d: VoiceActivityDetector, s: Seq<i64>, i: int, j: int)
    requires
        d.wf(),
        0 <= i < j,
        d.raw(s, i),
        forall|k: int| i < k <= j ==> !(#[trigger] d.raw(s, k)),
    ensures
        j <= i + d.hangover_frames ==> d.flag(s, j),
        j > i + d.hangover_frames ==> !d.flag(s, j),
{
    lemma_hang_decay(d, s, i, j);
}

proof fn lemma_hang_decay(d: VoiceActivityDetector, s: Seq<i64>, i: int, j: int)
    requires
        d.wf(),
        0 <= i < j,
        d.raw(s, i),
        forall|k: int| i < k <= j ==> !(#[trigger] d.raw(s, k)),
    ensures
        d.hang(s, j) == if d.hangover_frames - (j - i - 1) >= 0 {
            d.hangover_frames - (j - i - 1)
        } else {
            0
        },
    decreases j - i,
{
    if j == i + 1 {
        assert(d.hang(s, j) == d.hangover_frames);
    } else {
        lemma_hang_decay(d, s, i, j - 1);
    }
}

} // verus!
