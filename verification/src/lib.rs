//! Fixed-point audio analysis kernels: spectral engine, voice-activity
//! detector, pitch tracker, formant analyzer, and resampler.
//!
//! Samples are mono PCM values in Q16 fixed point (65536 represents 1.0).
//! Every kernel is a total function over its input size: short input is
//! zero-padded or summed as far as it reaches, long input is truncated,
//! and near-zero denominators are floored, so no call panics.

pub mod dbscale;
pub mod fixed;
pub mod formant;
pub mod pitch;
pub mod resample;
pub mod spectral;
pub mod trig;
pub mod vad;

use vstd::prelude::*;

verus! {

/// Magnitude bound, in Q16, that every sample handed to a kernel must
/// respect: four times full scale, leaving headroom above the nominal
/// [-1, 1] range while keeping every internal sum inside `i64`.
pub const SAMPLE_LIMIT: i64 = 262144;

/// Longest sample buffer a kernel accepts; keeps frame indices and
/// segment boundaries inside `u32` and every energy sum inside `i64`.
pub const MAX_INPUT_LEN: usize = 0x4000000;

/// All samples within the representable headroom.
pub open spec fn samples_ok(s: Seq<i64>) -> bool {
    forall|i: int| 0 <= i < s.len() ==> -SAMPLE_LIMIT <= #[trigger] s[i] <= SAMPLE_LIMIT
}

} // verus!
