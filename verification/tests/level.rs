//! Readings of buffers of samples.
use decibel_counter::calibration::{
    CALIBRATION_FALLBACK_DB, MAX_THRESHOLD_DB, MIN_THRESHOLD_DB, SILENCE_FLOOR_DB,
};
use decibel_counter::level::{
    db_from_log10, rms_to_db as level_of, Level, CLIPPING, DB_PER_DECADE, FULL_SCALE,
    FULL_SCALE_DB, SILENCE_DB, TOP_DB,
};
use decibel_counter::samples::{
    normalise_double, normalise_i16, normalise_i32, normalise_u16, SampleFormat,
};
use decibel_counter::single::Single;

fn patterns(samples: &[f32]) -> Vec<Single> {
    samples.iter().map(|s| Single { bits: s.to_bits() }).collect()
}

fn number(s: Single) -> f32 {
    f32::from_bits(s.bits)
}

fn single(x: f32) -> Single {
    Single { bits: x.to_bits() }
}

fn rms_to_db(samples: &[f32]) -> f32 {
    match level_of(&patterns(samples)) {
        Level::Reading(db) => number(db),
        Level::LogOf(amplitude) => number(db_from_log10(single(number(amplitude).log10()))),
    }
}

#[test]
fn silence_returns_zero() {
    assert_eq!(rms_to_db(&[0.0_f32; 256]), 0.0);
}

#[test]
fn empty_buffer_returns_zero() {
    assert_eq!(rms_to_db(&[]), 0.0);
}

#[test]
fn dc_full_scale_is_100_db() {
    let db = rms_to_db(&[1.0_f32; 256]);
    assert!((db - 100.0).abs() < 0.01, "expected 100 dB, got {db}");
}

#[test]
fn full_scale_sine_near_97_db() {
    let samples: Vec<f32> = (0..1024)
        .map(|i| (2.0 * std::f32::consts::PI * i as f32 / 64.0).sin())
        .collect();
    let db = rms_to_db(&samples);
    assert!((db - 97.0).abs() < 1.0, "expected ~97 dB, got {db}");
}

#[test]
fn clipping_is_clamped_to_120() {
    let db = rms_to_db(&[2.0_f32; 256]);
    assert_eq!(db, 120.0);
}

#[test]
fn result_never_negative() {
    let db = rms_to_db(&[0.001_f32; 256]);
    assert!(db >= 0.0, "dB must be >= 0, got {db}");
}

#[test]
fn single_sample_does_not_panic() {
    let db = rms_to_db(&[0.5_f32]);
    assert!(db >= 0.0 && db <= 120.0);
}

/// The computation in the machine's own arithmetic.
fn machine_db(samples: &[f32]) -> f32 {
    let mean_sq: f32 = samples.iter().map(|&x| x * x).sum::<f32>() / samples.len() as f32;
    let rms = mean_sq.sqrt();
    if rms <= 0.0 {
        return 0.0;
    }
    20.0_f32.mul_add(rms.log10(), 100.0).clamp(0.0, 120.0)
}

#[test]
fn buffers_within_full_scale_read_like_the_formula() {
    let mut state: u32 = 1;
    for length in [1, 2, 3, 64, 480, 1023] {
        for gain in [1.0, 0.5, 0.01, 1e-4, 1e-20] {
            let samples: Vec<f32> = (0..length)
                .map(|_| {
                    state = state.wrapping_mul(1664525).wrapping_add(1013904223);
                    gain * (state as i32 as f32 / i32::MAX as f32)
                })
                .collect();
            assert_eq!(rms_to_db(&samples).to_bits(), machine_db(&samples).to_bits());
        }
    }
}

#[test]
fn faint_sound_reads_the_bottom_of_the_scale() {
    assert_eq!(rms_to_db(&[1e-7_f32; 64]), 0.0);
    assert_eq!(rms_to_db(&[1e-30_f32; 64]), 0.0);
}

#[test]
fn between_full_scale_and_clipping_the_formula_holds() {
    let below = f32::from_bits(2.0_f32.to_bits() - 1);
    for amplitude in [1.0, 1.0001, 1.5, 1.9999, below] {
        let samples = [amplitude; 16];
        assert_eq!(rms_to_db(&samples).to_bits(), machine_db(&samples).to_bits());
    }
    assert_eq!(level_of(&patterns(&[1.0_f32; 16])), Level::LogOf(single(1.0)));
    assert_eq!(level_of(&patterns(&[-1.5_f32; 16])), Level::LogOf(single(1.5)));
}

#[test]
fn from_twice_full_scale_on_a_buffer_clips() {
    for amplitude in [2.0, -2.0, 2.5, 3.0, 10.0, 1e30, f32::INFINITY] {
        assert_eq!(level_of(&patterns(&[amplitude; 16])), Level::Reading(single(120.0)));
    }
}

#[test]
fn one_loud_sample_does_not_clip_a_quiet_buffer() {
    let mut samples = [0.0_f32; 100];
    samples[3] = 2.0;
    assert_eq!(level_of(&patterns(&samples)), Level::LogOf(single(0.2)));
}

#[test]
fn a_buffer_with_a_nan_has_no_reading() {
    assert!(rms_to_db(&[0.5, f32::NAN, 0.5]).is_nan());
}

#[test]
fn readings_follow_the_logarithm() {
    assert_eq!(db_from_log10(single(0.0)), single(100.0));
    assert_eq!(db_from_log10(single(-1.0)), single(80.0));
    assert_eq!(db_from_log10(single(-1.5)), single(70.0));
    assert_eq!(db_from_log10(single(-5.0)), single(0.0));
    assert_eq!(db_from_log10(single(-6.0)), single(0.0));
    assert_eq!(db_from_log10(single(f32::NEG_INFINITY)), single(0.0));
    assert_eq!(db_from_log10(single(1.5)), single(120.0));
    assert_eq!(db_from_log10(single(f32::INFINITY)), single(120.0));
}

#[test]
fn negative_zeros_are_silent() {
    assert_eq!(level_of(&patterns(&[-0.0, 0.0, -0.0])), Level::Reading(single(0.0)));
}

#[test]
fn i16_samples_are_fractions_of_their_maximum() {
    let data = [0, 1, -1, 16384, i16::MAX, -i16::MAX];
    let expected: Vec<f32> = data.iter().map(|&s| s as f32 / i16::MAX as f32).collect();
    assert_eq!(normalise_i16(&data), patterns(&expected));
    assert_eq!(normalise_i16(&[i16::MAX, i16::MIN]), vec![single(1.0), single(-1.0)]);
}

fn db_of(samples: &[Single]) -> f32 {
    let numbers: Vec<f32> = samples.iter().map(|&s| number(s)).collect();
    rms_to_db(&numbers)
}

#[test]
fn full_scale_whole_numbers_read_100() {
    assert_eq!(db_of(&normalise_i16(&[i16::MIN; 64])), 100.0);
    assert_eq!(db_of(&normalise_i16(&[i16::MAX, i16::MIN])), 100.0);
    assert_eq!(db_of(&normalise_i32(&[i32::MAX, i32::MIN])), 100.0);
    assert_eq!(db_of(&normalise_u16(&[0; 64])), 100.0);
    assert!(db_of(&normalise_u16(&[u16::MAX; 64])) <= 100.0);
}

#[test]
fn signs_order_and_repetition_do_not_matter() {
    let x = [0.5, -0.25, 0.125, 0.75];
    let db = rms_to_db(&x);
    assert_eq!(rms_to_db(&[-0.5, 0.25, -0.125, 0.75]), db);
    assert_eq!(rms_to_db(&[0.75, 0.125, -0.25, 0.5]), db);
    assert_eq!(rms_to_db(&[0.5, -0.25, 0.125, 0.75, 0.5, -0.25, 0.125, 0.75]), db);
}

#[test]
fn a_louder_buffer_reads_no_lower() {
    let quiet = [0.1, -0.2, 0.0, 0.3];
    let loud = [-0.1, 0.25, 0.01, -0.9];
    assert!(rms_to_db(&quiet) <= rms_to_db(&loud));
    assert!(rms_to_db(&[0.0; 4]) <= rms_to_db(&quiet));
    assert!(rms_to_db(&loud) <= rms_to_db(&[2.0; 4]));
    assert!(rms_to_db(&loud) <= rms_to_db(&[f32::INFINITY; 4]));
}

#[test]
fn i32_samples_are_fractions_of_their_maximum() {
    let data = [0, 1, -1, 1 << 30, 123_456_789, i32::MAX, i32::MIN];
    let expected: Vec<f32> = data.iter().map(|&s| s as f32 / i32::MAX as f32).collect();
    assert_eq!(normalise_i32(&data), patterns(&expected));
    assert_eq!(normalise_i32(&[i32::MIN, 1 << 30]), vec![single(-1.0), single(0.5)]);
}

#[test]
fn u16_samples_have_their_silence_in_the_middle() {
    let data = [0, 1, 32_767, 32_768, 32_769, 49_152, u16::MAX];
    let expected: Vec<f32> = data.iter().map(|&s| (s as f32 - 32_768.0) / 32_768.0).collect();
    assert_eq!(normalise_u16(&data), patterns(&expected));
    assert_eq!(
        normalise_u16(&[0, 32_768, 49_152]),
        vec![single(-1.0), single(0.0), single(0.5)]
    );
}

#[test]
fn binary64_samples_are_narrowed() {
    let data = [0.0, 0.1, -0.25, 1.0 / 3.0, 1e-60, 1.0];
    let bits: Vec<u64> = data.iter().map(|s: &f64| s.to_bits()).collect();
    let expected: Vec<f32> = data.iter().map(|&s| s as f32).collect();
    assert_eq!(normalise_double(&bits), patterns(&expected));
}

#[test]
fn only_unknown_formats_are_unsupported() {
    for format in [
        SampleFormat::F64,
        SampleFormat::I32,
        SampleFormat::F32,
        SampleFormat::I16,
        SampleFormat::U16,
    ] {
        assert!(format.is_supported());
    }
    assert!(!SampleFormat::Other.is_supported());
}

#[test]
fn no_logarithm_gives_an_infinite_reading() {
    assert_eq!(number(db_from_log10(single(f32::INFINITY))), 120.0);
    assert_eq!(number(db_from_log10(single(f32::NEG_INFINITY))), 0.0);
    assert_eq!(number(db_from_log10(single(f32::MAX))), 120.0);
    assert!(number(db_from_log10(single(f32::NAN))).is_nan());
}

#[test]
fn the_patterns_stand_for_their_numbers() {
    assert_eq!(SILENCE_DB, 0.0_f32.to_bits());
    assert_eq!(TOP_DB, 120.0_f32.to_bits());
    assert_eq!(FULL_SCALE_DB, 100.0_f32.to_bits());
    assert_eq!(DB_PER_DECADE, 20.0_f32.to_bits());
    assert_eq!(FULL_SCALE, 1.0_f32.to_bits());
    assert_eq!(CLIPPING, 2.0_f32.to_bits());
    assert_eq!(SILENCE_FLOOR_DB, 10.0_f32.to_bits());
    assert_eq!(CALIBRATION_FALLBACK_DB, 60.0_f32.to_bits());
    assert_eq!(MIN_THRESHOLD_DB, 40.0_f32.to_bits());
    assert_eq!(MAX_THRESHOLD_DB, 95.0_f32.to_bits());
}

fn amplitude_of(samples: &[f32]) -> f64 {
    match level_of(&patterns(samples)) {
        Level::LogOf(amplitude) => number(amplitude) as f64,
        Level::Reading(db) => panic!("a reading of {}", number(db)),
    }
}

#[test]
fn amplitudes_are_exact_up_to_rounding() {
    let mut state: u32 = 7;
    let samples: Vec<f32> = (0..1000)
        .map(|_| {
            state = state.wrapping_mul(1664525).wrapping_add(1013904223);
            state as i32 as f32 / i32::MAX as f32
        })
        .collect();
    let squares: f64 = samples.iter().map(|&x| x as f64 * x as f64).sum();
    let exact = (squares / 1000.0).sqrt();
    let most = (1000.0 + 4.0) / 2f64.powi(23);
    let mut reversed = samples.clone();
    reversed.reverse();
    let mut twice = samples.clone();
    twice.extend_from_slice(&samples);
    for buffer in [&samples, &reversed] {
        assert!((amplitude_of(buffer) / exact - 1.0).abs() < most);
        assert!((rms_to_db(buffer) - rms_to_db(&samples)).abs() < 0.001);
    }
    assert!((amplitude_of(&twice) / exact - 1.0).abs() < 2.0 * most);
    assert!((rms_to_db(&twice) - rms_to_db(&samples)).abs() < 0.001);
}
