use rust_dsp::spectral::FftProcessor;

const Q: f64 = 65536.0;

fn q16(x: f64) -> i64 {
    (x * Q).round() as i64
}

fn sine(fs: f64, f0: f64, amp: f64, len: usize) -> Vec<i64> {
    let mut v = Vec::with_capacity(len);
    for i in 0..len {
        let t = i as f64 / fs;
        v.push(q16(amp * (2.0 * std::f64::consts::PI * f0 * t).sin()));
    }
    v
}

#[test]
fn power_spectrum_length_is_half_plus_one_for_any_input() {
    for &n in &[2usize, 3, 16, 64, 1024] {
        let eng = FftProcessor::new(n);
        for &input_len in &[0usize, 1, n / 2, n, 2 * n + 7] {
            let samples = vec![q16(0.25); input_len];
            let spec = eng.power_spectrum(&samples);
            assert_eq!(spec.len(), n / 2 + 1);
            let db = eng.magnitude_db(&samples);
            assert_eq!(db.len(), n / 2 + 1);
        }
    }
}

#[test]
fn dc_input_concentrates_power_in_bin_zero() {
    let n = 64usize;
    let eng = FftProcessor::new(n);
    let samples = vec![q16(0.5); n];
    let spec = eng.power_spectrum(&samples);
    assert!(spec[0] > 0);
    for k in 1..spec.len() {
        assert!(
            spec[0] > spec[k],
            "bin 0 ({}) not above bin {} ({})",
            spec[0],
            k,
            spec[k]
        );
    }
}

#[test]
fn sine_peak_lands_in_expected_bin() {
    let fs = 8000.0;
    let f0 = 1000.0;
    let n = 256usize;
    let eng = FftProcessor::new(n);
    let samples = sine(fs, f0, 0.8, n);
    let spec = eng.power_spectrum(&samples);
    let expected = (f0 * n as f64 / fs).round() as usize;
    let mut best = 0usize;
    for k in 1..spec.len() {
        if spec[k] > spec[best] {
            best = k;
        }
    }
    assert_eq!(best, expected);
}

#[test]
fn silent_bins_report_the_db_floor() {
    let eng = FftProcessor::new(32);
    let samples = vec![0i64; 32];
    let db = eng.magnitude_db(&samples);
    for &b in &db {
        assert_eq!(b, -6553600);
    }
}

#[test]
fn spectrum_is_deterministic() {
    let eng = FftProcessor::new(128);
    let samples = sine(8000.0, 440.0, 0.7, 128);
    let a = eng.power_spectrum(&samples);
    let b = eng.power_spectrum(&samples);
    assert_eq!(a, b);
}
