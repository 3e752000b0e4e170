//! Thresholds from readings.
use decibel_counter::calibration::{
    compute_threshold_stats as stats_of, CalibMode, CalibrationState,
    CALIBRATION_FALLBACK_DB as FALLBACK,
};
use decibel_counter::single::Single;

const CALIBRATION_FALLBACK_DB: f32 = 60.0;

/// The figures of a calibration as numbers.
struct Stats {
    threshold: f32,
    mean: f32,
    std_dev: f32,
    min: f32,
    max: f32,
}

fn patterns(samples: &[f32]) -> Vec<Single> {
    samples.iter().map(|s| Single { bits: s.to_bits() }).collect()
}

fn compute_threshold_stats(samples: &[f32], mode: &CalibMode) -> Stats {
    let stats = stats_of(&patterns(samples), mode);
    Stats {
        threshold: f32::from_bits(stats.threshold.bits),
        mean: f32::from_bits(stats.mean.bits),
        std_dev: f32::from_bits(stats.std_dev.bits),
        min: f32::from_bits(stats.min.bits),
        max: f32::from_bits(stats.max.bits),
    }
}

#[test]
fn empty_samples_returns_fallback() {
    let stats = compute_threshold_stats(&[], &CalibMode::Normal);
    assert_eq!(stats.threshold, CALIBRATION_FALLBACK_DB);
    assert_eq!(f32::from_bits(FALLBACK), CALIBRATION_FALLBACK_DB);
}

#[test]
fn all_silence_returns_fallback() {
    let samples = vec![5.0_f32; 200];
    let stats = compute_threshold_stats(&samples, &CalibMode::Normal);
    assert_eq!(stats.threshold, CALIBRATION_FALLBACK_DB);
}

#[test]
fn normal_mode_threshold_above_mean() {
    let samples: Vec<f32> = (0..500)
        .map(|i| 65.0 + 5.0 * ((i as f32 * 0.1).sin()))
        .collect();
    let stats = compute_threshold_stats(&samples, &CalibMode::Normal);
    assert!(stats.threshold >= 40.0 && stats.threshold <= 95.0);
    assert!(stats.threshold > stats.mean, "normal mode threshold must be above mean");
}

#[test]
fn limit_mode_threshold_equals_mean() {
    let samples: Vec<f32> = (0..500)
        .map(|i| 75.0 + 3.0 * ((i as f32 * 0.1).sin()))
        .collect();
    let stats = compute_threshold_stats(&samples, &CalibMode::Limit);
    assert!((stats.threshold - stats.mean).abs() < 1.0,
        "limit mode threshold should equal mean, got threshold={} mean={}", stats.threshold, stats.mean);
}

#[test]
fn constant_input_uses_percentile_fallback() {
    let samples = vec![70.0_f32; 200];
    let stats = compute_threshold_stats(&samples, &CalibMode::Normal);
    assert!((stats.threshold - 70.0).abs() < 1.0, "expected ~70 dB, got {}", stats.threshold);
}

#[test]
fn threshold_always_clamped_to_valid_range() {
    let loud = vec![98.0_f32; 200];
    let stats = compute_threshold_stats(&loud, &CalibMode::Normal);
    assert!(stats.threshold <= 95.0);

    let quiet = vec![15.0_f32; 200];
    let quiet_stats = compute_threshold_stats(&quiet, &CalibMode::Limit);
    assert!(quiet_stats.threshold >= 40.0);
}

#[test]
fn min_max_captured_correctly() {
    let samples: Vec<f32> = (0..200).map(|i| 50.0 + (i % 30) as f32).collect();
    let stats = compute_threshold_stats(&samples, &CalibMode::Normal);
    assert!(stats.min <= stats.mean, "min must be <= mean");
    assert!(stats.max >= stats.mean, "max must be >= mean");
    assert!(stats.min < stats.max, "min must be < max for varied input");
}

/// The computation in the machine's own arithmetic.
fn machine_stats(samples: &[f32], mode: &CalibMode) -> Stats {
    let active: Vec<f32> = samples.iter().copied().filter(|&s| s > 10.0).collect();
    if active.len() < 10 {
        return Stats { threshold: 60.0, mean: 0.0, std_dev: 0.0, min: 0.0, max: 0.0 };
    }
    let n = active.len() as f32;
    let mean: f32 = active.iter().sum::<f32>() / n;
    let variance: f32 = active.iter().map(|&x| (x - mean).powi(2)).sum::<f32>() / n;
    let std_dev = variance.sqrt();
    let mut sorted = active.clone();
    sorted.sort_unstable_by(|a, b| a.partial_cmp(b).unwrap());
    let raw = match mode {
        CalibMode::Limit => mean,
        CalibMode::Normal => {
            if std_dev < 1.0 {
                let idx = ((sorted.len() as f32) * 0.90) as usize;
                sorted[idx.min(sorted.len() - 1)]
            } else {
                mean + 1.5 * std_dev
            }
        }
    };
    Stats {
        threshold: raw.clamp(40.0, 95.0),
        mean,
        std_dev,
        min: sorted[0],
        max: sorted[sorted.len() - 1],
    }
}

fn same(a: f32, b: f32) -> bool {
    a.to_bits() == b.to_bits() || (a.is_nan() && b.is_nan())
}

fn agree(samples: &[f32]) {
    for mode in [CalibMode::Normal, CalibMode::Limit] {
        let got = compute_threshold_stats(samples, &mode);
        let expected = machine_stats(samples, &mode);
        assert!(same(got.threshold, expected.threshold), "threshold");
        assert!(same(got.mean, expected.mean), "mean");
        assert!(same(got.std_dev, expected.std_dev), "deviation");
        assert!(same(got.min, expected.min), "minimum");
        assert!(same(got.max, expected.max), "maximum");
    }
}

#[test]
fn figures_agree_with_the_machine() {
    let mut state: u32 = 5;
    for length in [0, 9, 10, 11, 20, 99, 100, 500, 2000] {
        for spread in [0.0, 0.5, 3.0, 30.0, 110.0] {
            let samples: Vec<f32> = (0..length)
                .map(|_| {
                    state = state.wrapping_mul(1664525).wrapping_add(1013904223);
                    60.0 + spread * (state as i32 as f32 / i32::MAX as f32)
                })
                .collect();
            agree(&samples);
        }
    }
}

#[test]
fn unusual_readings_agree_with_the_machine() {
    let mut samples = vec![65.5_f32; 30];
    samples.push(f32::NAN);
    samples.push(f32::NEG_INFINITY);
    samples.push(-0.0);
    agree(&samples);
    agree(&[f32::MAX; 12]);
    samples.push(f32::INFINITY);
    agree(&samples);
}

#[test]
fn nine_readings_of_speech_are_too_few() {
    let mut samples = vec![80.0_f32; 9];
    samples.extend(vec![10.0_f32; 50]);
    let stats = compute_threshold_stats(&samples, &CalibMode::Limit);
    assert_eq!(stats.threshold, 60.0);
    assert_eq!((stats.mean, stats.std_dev, stats.min, stats.max), (0.0, 0.0, 0.0, 0.0));
    samples.push(80.0);
    assert_eq!(compute_threshold_stats(&samples, &CalibMode::Limit).threshold, 80.0);
}

#[test]
fn exact_figures_of_two_levels() {
    let mut samples = vec![60.0_f32; 10];
    samples.extend(vec![64.0_f32; 10]);
    let normal = compute_threshold_stats(&samples, &CalibMode::Normal);
    assert_eq!((normal.mean, normal.std_dev), (62.0, 2.0));
    assert_eq!((normal.min, normal.max), (60.0, 64.0));
    assert_eq!(normal.threshold, 65.0);
    assert_eq!(compute_threshold_stats(&samples, &CalibMode::Limit).threshold, 62.0);
}

#[test]
fn level_speech_takes_its_ninetieth_percentile() {
    let samples: Vec<f32> = (0..20).map(|i| 70.0 + 0.1 * ((i * 7) % 20) as f32).collect();
    let stats = compute_threshold_stats(&samples, &CalibMode::Normal);
    assert!(stats.std_dev < 1.0);
    assert_eq!(stats.threshold, 70.0 + 0.1 * 18.0);
}

#[test]
fn silence_between_words_does_not_matter() {
    let speech: Vec<f32> = (0..40).map(|i| 55.0 + (i % 9) as f32).collect();
    let mut broken = Vec::new();
    for s in &speech {
        broken.push(*s);
        broken.push(3.0);
        broken.push(10.0);
    }
    let mode = CalibMode::Normal;
    assert_eq!(stats_of(&patterns(&broken), &mode), stats_of(&patterns(&speech), &mode));
}

#[test]
fn a_window_reports_on_its_own_readings() {
    let mut window = CalibrationState::new();
    window.record(Single { bits: 90.0_f32.to_bits() });
    assert!(window.samples.is_empty());
    assert!(window.open_window());
    for _ in 0..15 {
        window.record(Single { bits: 72.0_f32.to_bits() });
    }
    assert!(!window.open_window());
    assert_eq!(window.samples.len(), 15);
    let result = window.close_window(&CalibMode::Limit);
    assert_eq!(f32::from_bits(result.threshold.bits), 72.0);
    assert_eq!(f32::from_bits(result.mean.bits), 72.0);
    assert_eq!(f32::from_bits(result.std_dev.bits), 0.0);
    assert_eq!(f32::from_bits(result.min.bits), 72.0);
    assert_eq!(f32::from_bits(result.max.bits), 72.0);
    assert_eq!(result.mode, "limit");
    assert!(!window.active);
    window.record(Single { bits: 90.0_f32.to_bits() });
    assert_eq!(window.samples.len(), 15);
    assert!(window.open_window());
    assert!(window.samples.is_empty());
}

#[test]
fn names_and_modes_correspond() {
    assert_eq!(CalibMode::from_name(&"limit".to_string()), CalibMode::Limit);
    assert_eq!(CalibMode::from_name(&"normal".to_string()), CalibMode::Normal);
    assert_eq!(CalibMode::from_name(&"Limit".to_string()), CalibMode::Normal);
    assert_eq!(CalibMode::from_name(&String::new()), CalibMode::Normal);
    for mode in [CalibMode::Normal, CalibMode::Limit] {
        assert_eq!(CalibMode::from_name(&mode.to_name()), mode);
    }
}

#[test]
fn the_mean_leaves_the_extremes_only_by_rounding() {
    let whole: Vec<f32> = (0..200).map(|i| 50.0 + (i % 30) as f32).collect();
    let stats = compute_threshold_stats(&whole, &CalibMode::Limit);
    assert_eq!(stats.min, 50.0);
    assert_eq!(stats.max, 79.0);
    assert!(stats.min < stats.mean && stats.mean < stats.max);

    let rounded = vec![94.3_f32; 10];
    let stats = compute_threshold_stats(&rounded, &CalibMode::Limit);
    assert_eq!(stats.min, 94.3);
    assert_eq!(stats.mean, f32::from_bits(94.3_f32.to_bits() - 1));
}

#[test]
fn the_percentile_lies_at_nine_tenths() {
    for n in [10, 11, 19, 20, 100, 101, 1000, 4097] {
        let samples: Vec<f32> = (0..n).map(|i| 60.0 + i as f32 / 8192.0).collect();
        let stats = compute_threshold_stats(&samples, &CalibMode::Normal);
        assert_eq!(stats.threshold, samples[9 * n / 10]);
    }
}

#[test]
fn figures_are_exact_up_to_rounding() {
    let samples: Vec<f32> = (0..500).map(|i| 65.0 + 5.0 * ((i as f32 * 0.1).sin())).collect();
    let stats = compute_threshold_stats(&samples, &CalibMode::Normal);
    let n = samples.len() as f64;
    let mean = samples.iter().map(|&x| x as f64).sum::<f64>() / n;
    let deviation = (samples.iter().map(|&x| (x as f64 - mean).powi(2)).sum::<f64>() / n).sqrt();
    let most = (n + 6.0) / 2f64.powi(23);
    assert!((stats.mean as f64 / mean - 1.0).abs() < most);
    assert!((stats.std_dev as f64 / deviation - 1.0).abs() < most);
    assert!(stats.min as f64 <= stats.mean as f64 * (1.0 + most));
    assert!(stats.mean as f64 <= stats.max as f64 * (1.0 + most));
}
