use rust_dsp::resample::resample;

const Q: f64 = 65536.0;

fn q16(x: f64) -> i64 {
    (x * Q).round() as i64
}

fn sine(fs: f64, f0: f64, amp: f64, len: usize) -> Vec<i64> {
    let mut v = Vec::with_capacity(len);
    for i in 0..len {
        let t = i as f64 / fs;
        v.push(q16(amp * (2.0 * std::f64::consts::PI * f0 * t).sin()));
    }
    v
}

#[test]
fn output_length_is_rounded_rate_ratio() {
    assert_eq!(resample(&vec![0i64; 1000], 44100, 22050).len(), 500);
    assert_eq!(resample(&vec![0i64; 1000], 441, 480).len(), 1088);
    assert_eq!(resample(&vec![0i64; 7], 48000, 48000).len(), 7);
    assert_eq!(resample(&Vec::new(), 44100, 48000).len(), 0);
}

#[test]
fn silence_resamples_to_silence() {
    let out = resample(&vec![0i64; 2000], 44100, 22050);
    assert!(out.iter().all(|&v| v == 0));
}

/// Dominant frequency by zero crossings: `crossings * fs / (2 * len)`.
fn zc_freq(v: &[i64], fs: f64) -> f64 {
    let mut zc = 0usize;
    for i in 1..v.len() {
        if (v[i - 1] >= 0) != (v[i] >= 0) {
            zc += 1;
        }
    }
    zc as f64 * fs / (2.0 * v.len() as f64)
}

#[test]
fn round_trip_preserves_a_low_tone_frequency() {
    let fs = 44100u32;
    let tone = sine(fs as f64, 500.0, 0.5, 8192);
    let down = resample(&tone, fs, 22050);
    assert_eq!(down.len(), 4096);
    let up = resample(&down, 22050, fs);
    assert_eq!(up.len(), 8192);
    let freq_hz = zc_freq(&up, fs as f64);
    assert!(
        (freq_hz - 500.0).abs() <= 5.0,
        "round trip moved the tone to {} Hz",
        freq_hz
    );
    // Lossy but bounded: samples away from the edges stay close.
    for i in 100..8000 {
        let err = (up[i] - tone[i]).abs();
        assert!(err <= 660, "sample {}: {} vs {}", i, up[i], tone[i]);
    }
}

#[test]
fn identity_rate_reproduces_the_signal_exactly() {
    let tone = sine(8000.0, 200.0, 0.5, 400);
    let out = resample(&tone, 8000, 8000);
    assert_eq!(out, tone);
}
