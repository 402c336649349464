use rust_dsp::formant::FormantAnalyzer;

const Q: f64 = 65536.0;

fn q16(x: f64) -> i64 {
    (x * Q).round() as i64
}

/// Two lightly damped resonances, excited once: an all-pole signal
/// whose spectrum peaks near the two given frequencies.
fn two_resonance(fs: f64, f1: f64, f2: f64, len: usize) -> Vec<i64> {
    let r = 0.998f64;
    let mut y = vec![0.0f64; len];
    let (mut a, mut b) = (Vec::new(), Vec::new());
    for &f in &[f1, f2] {
        let th = 2.0 * std::f64::consts::PI * f / fs;
        a.push(2.0 * r * th.cos());
        b.push(-r * r);
    }
    let mut s1 = [0.0f64; 2];
    let mut s2 = [0.0f64; 2];
    for i in 0..len {
        let x = if i == 0 { 1.0 } else { 0.0 };
        let mut sum = 0.0;
        for k in 0..2 {
            let v = x + a[k] * s1[k] + b[k] * s2[k];
            s2[k] = s1[k];
            s1[k] = v;
            sum += v;
        }
        y[i] = sum;
    }
    let peak = y.iter().fold(0.0f64, |m, &v| m.max(v.abs())).max(1e-9);
    y.iter().map(|&v| q16(0.5 * v / peak)).collect()
}

#[test]
fn zero_frame_gives_zero_coefficients_and_no_formants() {
    let an = FormantAnalyzer::new(8000, 12);
    let samples = vec![0i64; 1024];
    let coeffs = an.compute_lpc(&samples);
    assert_eq!(coeffs.len(), 12);
    assert!(coeffs.iter().all(|&c| c == 0));
    let formants = an.analyze(&samples);
    assert!(formants.is_empty());
}

#[test]
fn recovers_two_resonances_within_tolerance() {
    let fs = 8000.0;
    let (f1, f2) = (700.0, 2200.0);
    let an = FormantAnalyzer::new(8000, 8);
    let samples = two_resonance(fs, f1, f2, 1024);
    let formants = an.analyze(&samples);
    assert!(
        formants.len() >= 2,
        "expected at least two formants, got {:?}",
        formants
    );
    let hz: Vec<f64> = formants.iter().map(|&f| f as f64 / Q).collect();
    let near = |target: f64| hz.iter().any(|&f| (f - target).abs() <= 200.0);
    assert!(near(f1), "no formant near {} in {:?}", f1, hz);
    assert!(near(f2), "no formant near {} in {:?}", f2, hz);
}

#[test]
fn formants_are_ascending_and_at_most_four() {
    let an = FormantAnalyzer::new(8000, 10);
    let samples = two_resonance(8000.0, 500.0, 1500.0, 1024);
    let formants = an.analyze(&samples);
    assert!(!formants.is_empty());
    assert!(formants.len() <= 4);
    for w in formants.windows(2) {
        assert!(w[0] < w[1]);
    }
}

#[test]
fn order_zero_analyzer_finds_nothing() {
    let an = FormantAnalyzer::new(8000, 0);
    let samples = two_resonance(8000.0, 700.0, 2200.0, 512);
    assert_eq!(an.compute_lpc(&samples).len(), 0);
    assert!(an.analyze(&samples).is_empty());
}
