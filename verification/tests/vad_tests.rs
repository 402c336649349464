use rust_dsp::vad::VoiceActivityDetector;

const Q: f64 = 65536.0;

fn q16(x: f64) -> i64 {
    (x * Q).round() as i64
}

/// One loud constant frame at frame index `at`, silence elsewhere.
fn burst(total_frames: usize, frame: usize, at: usize) -> Vec<i64> {
    let mut v = vec![0i64; total_frames * frame];
    for i in 0..frame {
        v[at * frame + i] = q16(0.5);
    }
    v
}

#[test]
fn hangover_forces_five_frames_then_releases() {
    let frame = 100usize;
    let d = VoiceActivityDetector::new(frame, frame);
    let flags = d.detect(&burst(12, frame, 2));
    assert_eq!(flags.len(), 12);
    assert_eq!(flags[0], 0);
    assert_eq!(flags[1], 0);
    // The speech frame itself and the five hangover frames after it.
    for i in 2..=7 {
        assert_eq!(flags[i], 1, "frame {} should be forced speech", i);
    }
    // The first frame past the hangover window is silent again.
    assert_eq!(flags[8], 0);
    assert_eq!(flags[9], 0);
}

#[test]
fn hangover_run_becomes_one_segment_with_exact_bounds() {
    let frame = 100usize;
    let d = VoiceActivityDetector::new(frame, frame);
    let segs = d.get_segments(&burst(12, frame, 2));
    assert_eq!(segs, vec![200u32, 800u32]);
}

#[test]
fn all_zero_input_yields_no_segments() {
    let d = VoiceActivityDetector::new(256, 128);
    let samples = vec![0i64; 10000];
    let flags = d.detect(&samples);
    assert!(flags.iter().all(|&f| f == 0));
    let segs = d.get_segments(&samples);
    assert!(segs.is_empty());
}

#[test]
fn high_zero_crossing_rate_blocks_speech() {
    let frame = 200usize;
    let d = VoiceActivityDetector::new(frame, frame);
    // Loud but alternating in sign every sample: rate 1.0, above 0.1.
    let mut v = Vec::new();
    for i in 0..frame * 3 {
        v.push(if i % 2 == 0 { q16(0.5) } else { q16(-0.5) });
    }
    let flags = d.detect(&v);
    assert!(flags.iter().all(|&f| f == 0));
}

#[test]
fn raising_energy_threshold_silences_a_quiet_tone() {
    let frame = 200usize;
    let mut d = VoiceActivityDetector::new(frame, frame);
    // Constant 0.1: about -20 dB, zero crossing rate 0.
    let v = vec![q16(0.1); frame * 4];
    let flags = d.detect(&v);
    assert!(flags.iter().all(|&f| f == 1));
    d.set_thresholds(-10 * 65536, 6554);
    let flags2 = d.detect(&v);
    assert!(flags2.iter().all(|&f| f == 0));
}

#[test]
fn detect_covers_a_trailing_short_frame() {
    let d = VoiceActivityDetector::new(100, 60);
    let samples = vec![0i64; 250];
    // Frames start at 0, 60, 120 ((250-100)/60+1 = 3 frames).
    let flags = d.detect(&samples);
    assert_eq!(flags.len(), 3);
}

#[test]
fn empty_input_yields_one_silent_frame() {
    let d = VoiceActivityDetector::new(100, 100);
    let samples: Vec<i64> = Vec::new();
    let flags = d.detect(&samples);
    assert_eq!(flags, vec![0u8]);
    assert!(d.get_segments(&samples).is_empty());
}
