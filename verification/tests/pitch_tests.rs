use rust_dsp::pitch::PitchDetector;

const Q: f64 = 65536.0;

fn q16(x: f64) -> i64 {
    (x * Q).round() as i64
}

fn sine(fs: f64, f0: f64, amp: f64, len: usize) -> Vec<i64> {
    let mut v = Vec::with_capacity(len);
    for i in 0..len {
        let t = i as f64 / fs;
        v.push(q16(amp * (2.0 * std::f64::consts::PI * f0 * t).sin()));
    }
    v
}

/// A harmonic-rich voiced tone: ten harmonics with 1/h amplitudes, the
/// kind of waveform the difference function dips sharply on.
fn voiced(fs: f64, f0: f64, len: usize) -> Vec<i64> {
    let mut v = Vec::with_capacity(len);
    for i in 0..len {
        let t = i as f64 / fs;
        let mut sum = 0.0;
        for h in 1..=10 {
            sum += (2.0 * std::f64::consts::PI * f0 * h as f64 * t).sin() / h as f64;
        }
        v.push(q16(0.4 * sum / 2.93));
    }
    v
}

/// Deterministic pseudo-random noise from a linear congruential step.
fn noise(len: usize, amp: f64) -> Vec<i64> {
    let mut v = Vec::with_capacity(len);
    let mut state: u64 = 0x2545f4914f6cdd1d;
    for _ in 0..len {
        state = state.wrapping_mul(6364136223846793005).wrapping_add(1442695040888963407);
        let u = ((state >> 33) as f64) / ((1u64 << 31) as f64) - 1.0;
        v.push(q16(amp * u));
    }
    v
}

#[test]
fn tracks_a_220_hz_tone_within_two_hz() {
    let det = PitchDetector::new(44100, 2048);
    let samples = voiced(44100.0, 220.0, 2048);
    let r = det.detect(&samples);
    assert_eq!(r.len(), 2);
    let freq_hz = r[0] as f64 / Q;
    let conf = r[1] as f64 / Q;
    assert!(
        (freq_hz - 220.0).abs() <= 2.0,
        "frequency off: {} Hz",
        freq_hz
    );
    assert!(conf > 0.0, "confidence not positive: {}", conf);
}

#[test]
fn silence_is_unvoiced() {
    let det = PitchDetector::new(44100, 2048);
    let r = det.detect(&vec![0i64; 2048]);
    assert_eq!(r, vec![0i64, 0i64]);
}

#[test]
fn white_noise_is_unvoiced() {
    let det = PitchDetector::new(44100, 2048);
    let r = det.detect(&noise(2048, 0.4));
    assert_eq!(r, vec![0i64, 0i64]);
}

#[test]
fn unvoiced_result_is_deterministic() {
    let det = PitchDetector::new(44100, 1024);
    let n = noise(1024, 0.4);
    assert_eq!(det.detect(&n), det.detect(&n));
}

#[test]
fn batch_yields_one_pair_per_hop() {
    let det = PitchDetector::new(44100, 2048);
    let samples = voiced(44100.0, 220.0, 8192);
    let r = det.detect_batch(&samples, 2048);
    // (8192 - 2048) / 2048 + 1 = 4 frames, two values each.
    assert_eq!(r.len(), 8);
    let mut hits = 0;
    for p in 0..4 {
        let f = r[2 * p] as f64 / Q;
        // A frame whose threshold crossing just misses reports unvoiced.
        assert!(
            f == 0.0 || (f - 220.0).abs() <= 3.0,
            "pair {}: {} Hz",
            p,
            f
        );
        if f != 0.0 {
            hits += 1;
        }
    }
    assert!(hits >= 3, "only {} of 4 frames hits", hits);
}

#[test]
fn short_input_is_handled_as_one_clipped_frame() {
    let det = PitchDetector::new(44100, 2048);
    let r = det.detect(&sine(44100.0, 220.0, 0.5, 600));
    assert_eq!(r.len(), 2);
}

#[test]
fn threshold_setter_changes_the_decision() {
    let mut det = PitchDetector::new(44100, 2048);
    let samples = voiced(44100.0, 220.0, 2048);
    // An impossible threshold leaves everything unvoiced.
    det.set_threshold(0);
    assert_eq!(det.detect(&samples), vec![0i64, 0i64]);
    det.set_threshold(6554);
    assert!(det.detect(&samples)[0] > 0);
}
