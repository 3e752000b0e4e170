//! What holds of every calibration.
use crate::calibration::deviation_sum;
use crate::calibration::from_quiet_to_loud;
use crate::calibration::is_speech;
use crate::calibration::lemma_order_is_total;
use crate::calibration::mean;
use crate::calibration::no_louder;
use crate::calibration::percentile_index;
use crate::calibration::raw_threshold;
use crate::calibration::speech;
use crate::calibration::standard_deviation;
use crate::calibration::sum;
use crate::calibration::threshold_stats;
use crate::calibration::CalibMode;
use crate::calibration::CalibrationResult;
use crate::calibration::Window;
use crate::calibration::CALIBRATION_FALLBACK_DB;
use crate::calibration::CALIBRATION_WINDOW_SECS;
use crate::calibration::DEVIATIONS;
use crate::calibration::LEVEL_SPEECH_DB;
use crate::calibration::MAX_THRESHOLD_DB;
use crate::calibration::MIN_ACTIVE_SAMPLES;
use crate::calibration::MIN_THRESHOLD_DB;
use crate::calibration::PERCENTILE;
use crate::convert::of_int;
use crate::level::reading;
use crate::level::SILENCE_DB;
use crate::level::TOP_DB;
use crate::level_laws::no_reading_is_infinite;
use crate::listener::POLL_INTERVAL_MS;
use crate::listener::SWITCH_POLLS;
use crate::positive::lemma_count;
use crate::positive::lemma_minus;
use crate::positive::lemma_over;
use crate::positive::lemma_plus;
use crate::positive::lemma_root;
use crate::positive::lemma_square;
use crate::positive::lemma_times;
use crate::precision::lemma_gap_below;
use crate::precision::lemma_next_units;
use crate::precision::lemma_representable;
use crate::precision::lemma_small_int;
use crate::precision::order_is_by_value;
use crate::precision::rounding_is_monotone;
use crate::precision::rounding_is_nearest;
use crate::precision::rounding_keeps_representable;
use crate::rounding::rounded;
use crate::single::units;
use crate::single::Single;
use crate::throttle::EMIT_INTERVAL_MS;
use vstd::arithmetic::div_mod::lemma_fundamental_div_mod_converse;
use vstd::arithmetic::power2::lemma2_to64;
use vstd::arithmetic::power2::lemma_pow2_adds;
use vstd::arithmetic::power2::lemma_pow2_pos;
use vstd::arithmetic::power2::pow2;
use vstd::prelude::*;
use vstd::relations::sorted_by;
use vstd::seq_lib::group_to_multiset_ensures;

verus! {

/// Whether no reading is infinite.
pub open spec fn all_bounded(samples: Seq<Single>) -> bool {
    forall|i: int| 0 <= i < samples.len() ==> !(#[trigger] samples[i]).is_infinite()
}

/// Readings of speech in a list of bounded readings are finite and above zero.
pub(crate) proof fn lemma_speech(samples: Seq<Single>)
    requires
        all_bounded(samples),
    ensures
        forall|i: int|
            0 <= i < speech(samples).len() ==> (#[trigger] speech(samples)[i]).is_finite()
                && speech(samples)[i].at_least_zero() && is_speech(speech(samples)[i]),
{
    let s = speech(samples);
    let pred = |x: Single| is_speech(x);
    assert forall|i: int| 0 <= i < s.len() implies (#[trigger] s[i]).is_finite()
        && s[i].at_least_zero() && is_speech(s[i]) by {
        samples.lemma_filter_pred(pred, i);
        assert(samples.contains(s[i])) by {
            samples.lemma_filter_contains_rev(pred, s[i]);
        }
        let j = choose|j: int| 0 <= j < samples.len() && samples[j] == s[i];
        assert(!samples[j].is_infinite());
    }
}

pub(crate) proof fn lemma_sum(s: Seq<Single>)
    requires
        forall|i: int| 0 <= i < s.len() ==> (#[trigger] s[i]).at_least_zero(),
    ensures
        sum(s).at_least_zero(),
    decreases s.len(),
{
    if s.len() > 0 {
        let rest = s.drop_last();
        assert forall|i: int| 0 <= i < rest.len() implies (#[trigger] rest[i]).at_least_zero() by {
            assert(rest[i] == s[i]);
        }
        lemma_sum(rest);
        lemma_plus(sum(rest), s.last());
    }
}

proof fn lemma_deviation_sum(s: Seq<Single>, m: Single)
    requires
        !m.is_nan(),
        forall|i: int| 0 <= i < s.len() ==> (#[trigger] s[i]).is_finite(),
    ensures
        deviation_sum(s, m).at_least_zero(),
    decreases s.len(),
{
    if s.len() > 0 {
        let rest = s.drop_last();
        assert forall|i: int| 0 <= i < rest.len() implies (#[trigger] rest[i]).is_finite() by {
            assert(rest[i] == s[i]);
        }
        lemma_deviation_sum(rest, m);
        lemma_minus(s.last(), m);
        lemma_square(s.last().minus(m));
        lemma_plus(deviation_sum(rest, m), s.last().minus(m).times(s.last().minus(m)));
    }
}

/// The mean and the standard deviation of bounded readings of speech are numbers,
/// zero or above.
pub(crate) proof fn lemma_figures(s: Seq<Single>)
    requires
        0 < s.len() <= usize::MAX,
        forall|i: int|
            0 <= i < s.len() ==> (#[trigger] s[i]).is_finite() && s[i].at_least_zero(),
    ensures
        mean(s).at_least_zero(),
        standard_deviation(s).at_least_zero(),
{
    lemma_count(s.len());
    lemma_sum(s);
    lemma_over(sum(s), of_int(s.len() as int));
    lemma_deviation_sum(s, mean(s));
    lemma_over(deviation_sum(s, mean(s)), of_int(s.len() as int));
    lemma_root(deviation_sum(s, mean(s)).over(of_int(s.len() as int)));
}

pub(crate) proof fn lemma_sorted(s: Seq<Single>)
    ensures
        from_quiet_to_loud(s).len() == s.len(),
        sorted_by(from_quiet_to_loud(s), |a: Single, b: Single| no_louder(a, b)),
        forall|x: Single| #[trigger] from_quiet_to_loud(s).contains(x) <==> s.contains(x),
{
    broadcast use group_to_multiset_ensures;

    let leq = |a: Single, b: Single| no_louder(a, b);
    let t = from_quiet_to_loud(s);
    lemma_order_is_total();
    s.lemma_sort_by_ensures(leq);
    assert(t.len() == t.to_multiset().len());
    assert(s.len() == s.to_multiset().len());
    assert forall|x: Single| #[trigger] t.contains(x) <==> s.contains(x) by {
        assert(t.contains(x) <==> t.to_multiset().count(x) > 0);
        assert(s.contains(x) <==> s.to_multiset().count(x) > 0);
    }
}

/// Before it is held in its range the threshold is a number, whatever bounded
/// readings of speech it comes from.
proof fn lemma_raw_threshold(s: Seq<Single>, mode: CalibMode)
    requires
        0 < s.len() <= usize::MAX,
        forall|i: int|
            0 <= i < s.len() ==> (#[trigger] s[i]).is_finite() && s[i].at_least_zero(),
    ensures
        !raw_threshold(s, mode).is_nan(),
{
    lemma_figures(s);
    let std = standard_deviation(s);
    let factor = Single { bits: DEVIATIONS };
    lemma_times(factor, std);
    lemma_plus(mean(s), factor.times(std));
    lemma_sorted(s);
    let i = percentile_index(s.len());
    let t = from_quiet_to_loud(s);
    assert(t.contains(t[i]));
    let j = choose|j: int| 0 <= j < s.len() && s[j] == t[i];
    assert(s[j].is_finite());
}

/// The recommended threshold always lies within 40 and 95 dB.
pub proof fn the_threshold_stays_in_range(samples: Seq<Single>, mode: CalibMode)
    requires
        samples.len() <= usize::MAX,
        all_bounded(samples),
    ensures
        ({
            let threshold = threshold_stats(samples, mode).threshold;
            &&& !threshold.is_nan()
            &&& (Single { bits: MIN_THRESHOLD_DB }).rank() <= threshold.rank()
            &&& threshold.rank() <= (Single { bits: MAX_THRESHOLD_DB }).rank()
        }),
{
    let s = speech(samples);
    if s.len() >= MIN_ACTIVE_SAMPLES {
        lemma_speech(samples);
        samples.lemma_filter_len(|x: Single| is_speech(x));
        lemma_raw_threshold(s, mode);
    }
}

/// Whether a reading is one that the meter gives: an end of the scale, or the
/// reading for some logarithm.
pub open spec fn is_metered(db: Single) -> bool {
    ||| db.bits == SILENCE_DB
    ||| db.bits == TOP_DB
    ||| exists|log: Single| db == #[trigger] reading(log)
}

/// Whatever the meter has read, the recommended threshold lies within 40 and 95 dB.
pub proof fn metered_readings_give_a_threshold_in_range(samples: Seq<Single>, mode: CalibMode)
    requires
        samples.len() <= usize::MAX,
        forall|i: int| 0 <= i < samples.len() ==> is_metered(#[trigger] samples[i]),
    ensures
        ({
            let threshold = threshold_stats(samples, mode).threshold;
            &&& !threshold.is_nan()
            &&& (Single { bits: MIN_THRESHOLD_DB }).rank() <= threshold.rank()
            &&& threshold.rank() <= (Single { bits: MAX_THRESHOLD_DB }).rank()
        }),
{
    assert forall|i: int| 0 <= i < samples.len() implies !(#[trigger] samples[i]).is_infinite() by {
        let db = samples[i];
        assert(is_metered(db));
        if db.bits != SILENCE_DB && db.bits != TOP_DB {
            no_reading_is_infinite(choose|log: Single| db == #[trigger] reading(log));
        }
    }
    the_threshold_stays_in_range(samples, mode);
}

/// With fewer than ten readings of speech the threshold is 60 dB in either mode,
/// whatever the rest is.
pub proof fn too_little_speech_gives_the_fallback(samples: Seq<Single>, mode: CalibMode)
    requires
        speech(samples).len() < MIN_ACTIVE_SAMPLES,
    ensures
        threshold_stats(samples, mode).threshold == (Single { bits: CALIBRATION_FALLBACK_DB }),
        threshold_stats(samples, CalibMode::Normal) == threshold_stats(samples, CalibMode::Limit),
{
}

/// Silence does not matter: taking the readings of silence out changes nothing.
pub proof fn silence_does_not_matter(samples: Seq<Single>, mode: CalibMode)
    ensures
        speech(speech(samples)) == speech(samples),
        threshold_stats(speech(samples), mode) == threshold_stats(samples, mode),
{
    let pred = |x: Single| is_speech(x);
    let s = speech(samples);
    assert forall|i: int| 0 <= i < s.len() implies is_speech(#[trigger] s[i]) by {
        samples.lemma_filter_pred(pred, i);
    }
    lemma_all_speech(s);
}

proof fn lemma_all_speech(s: Seq<Single>)
    requires
        forall|i: int| 0 <= i < s.len() ==> is_speech(#[trigger] s[i]),
    ensures
        speech(s) == s,
    decreases s.len(),
{
    let pred = |x: Single| is_speech(x);
    if s.len() > 0 {
        let rest = s.drop_last();
        assert forall|i: int| 0 <= i < rest.len() implies is_speech(#[trigger] rest[i]) by {
            assert(rest[i] == s[i]);
        }
        lemma_all_speech(rest);
        rest.lemma_filter_push(s.last(), pred);
        assert(s =~= rest.push(s.last()));
        assert(is_speech(s[s.len() - 1]));
    } else {
        reveal(Seq::filter);
        assert(speech(s) =~= s);
    }
}

/// In limit mode a mean within 40 and 95 dB is the threshold itself.
pub proof fn in_limit_mode_the_mean_is_the_threshold(samples: Seq<Single>)
    requires
        speech(samples).len() >= MIN_ACTIVE_SAMPLES,
        !mean(speech(samples)).is_nan(),
        (Single { bits: MIN_THRESHOLD_DB }).rank() <= mean(speech(samples)).rank(),
        mean(speech(samples)).rank() <= (Single { bits: MAX_THRESHOLD_DB }).rank(),
    ensures
        threshold_stats(samples, CalibMode::Limit).threshold == threshold_stats(
            samples,
            CalibMode::Limit,
        ).mean,
{
}

/// The reported extremes are readings of speech, with none below or above them; and
/// where one reading is below another, so is the least below the greatest.
pub proof fn the_extremes_are_readings(samples: Seq<Single>, mode: CalibMode)
    requires
        speech(samples).len() >= MIN_ACTIVE_SAMPLES,
    ensures
        ({
            let s = speech(samples);
            let stats = threshold_stats(samples, mode);
            &&& s.contains(stats.min)
            &&& s.contains(stats.max)
            &&& forall|i: int|
                0 <= i < s.len() ==> !(#[trigger] s[i]).below(stats.min) && !stats.max.below(s[i])
            &&& forall|i: int, j: int|
                0 <= i < s.len() && 0 <= j < s.len() && (#[trigger] s[i]).below(#[trigger] s[j])
                    ==> stats.min.below(stats.max)
        }),
{
    let s = speech(samples);
    let t = from_quiet_to_loud(s);
    let leq = |a: Single, b: Single| no_louder(a, b);
    lemma_sorted(s);
    let n = t.len() as int;
    assert(t.contains(t[0]));
    assert(t.contains(t[n - 1]));
    let pred = |x: Single| is_speech(x);
    assert forall|i: int| 0 <= i < s.len() implies !(#[trigger] s[i]).below(t[0]) && !t[n
        - 1].below(s[i]) by {
        assert(s.contains(s[i]));
        assert(t.contains(s[i]));
        let j = choose|j: int| 0 <= j < t.len() && t[j] == s[i];
        if 0 < j {
            assert(leq(t[0], t[j]));
        }
        if j < n - 1 {
            assert(leq(t[j], t[n - 1]));
        }
        let a = choose|a: int| 0 <= a < s.len() && s[a] == t[0];
        let b = choose|b: int| 0 <= b < s.len() && s[b] == t[n - 1];
        samples.lemma_filter_pred(pred, i);
        samples.lemma_filter_pred(pred, a);
        samples.lemma_filter_pred(pred, b);
    }
}

/// The sum of the values of readings, without rounding.
pub open spec fn exact_sum(s: Seq<Single>) -> int
    decreases s.len(),
{
    if s.len() == 0 {
        0
    } else {
        exact_sum(s.drop_last()) + s.last().value()
    }
}

/// The mean lies between the reported extremes, as long as rounding has not carried
/// the sum of the readings beyond as many times the one or the other; so it does
/// wherever that sum is exact.
pub proof fn the_mean_lies_between_the_extremes(samples: Seq<Single>, mode: CalibMode)
    requires
        all_bounded(samples),
        MIN_ACTIVE_SAMPLES <= speech(samples).len() < 0x100_0000,
        sum(speech(samples)).is_finite(),
    ensures
        ({
            let n = speech(samples).len();
            let total = sum(speech(samples)).value();
            let stats = threshold_stats(samples, mode);
            &&& n * stats.min.value() <= total ==> !stats.mean.below(stats.min)
            &&& total <= n * stats.max.value() ==> !stats.max.below(stats.mean)
            &&& total == exact_sum(speech(samples)) ==> !stats.mean.below(stats.min)
                && !stats.max.below(stats.mean)
        }),
{
    let s = speech(samples);
    let stats = threshold_stats(samples, mode);
    let n = s.len();
    let p = pow2(149);
    let d = n * p;
    let total = units(sum(s).magnitude());
    the_extremes_are_readings(samples, mode);
    lemma_speech(samples);
    lemma_sum(s);
    lemma_count(n);
    lemma_small_int(n);
    lemma_pow2_pos(149);
    assert(d > 0) by (nonlinear_arith)
        requires
            d == n * p,
            n > 0,
            p > 0,
    ;
    assert forall|i: int| 0 <= i < s.len() implies stats.min.value() <= (#[trigger] s[i]).value()
        <= stats.max.value() by {
        order_is_by_value(s[i], stats.min);
        order_is_by_value(stats.max, s[i]);
    }
    an_exact_sum_lies_between_its_extremes(s, stats.min.value(), stats.max.value());
    assert(units(of_int(n as int).magnitude()) == d);
    if n * stats.min.value() <= sum(s).value() {
        let m = units(stats.min.magnitude());
        assert((m * d) * d <= (total * p) * d) by (nonlinear_arith)
            requires
                n * m <= total,
                d == n * p,
                p > 0,
        ;
        rounding_is_monotone(m * d, d, total * p, d);
        rounding_keeps_representable(stats.min.magnitude(), d);
    }
    if sum(s).value() <= n * stats.max.value() {
        let m = units(stats.max.magnitude());
        assert((total * p) * d <= (m * d) * d) by (nonlinear_arith)
            requires
                total <= n * m,
                d == n * p,
                p > 0,
        ;
        rounding_is_monotone(total * p, d, m * d, d);
        rounding_keeps_representable(stats.max.magnitude(), d);
    }
}

/// Without rounding the sum of readings is never beyond as many times the least or
/// the greatest of them.
pub proof fn an_exact_sum_lies_between_its_extremes(s: Seq<Single>, low: int, high: int)
    requires
        forall|i: int| 0 <= i < s.len() ==> low <= (#[trigger] s[i]).value() <= high,
    ensures
        s.len() * low <= exact_sum(s) <= s.len() * high,
    decreases s.len(),
{
    let n = s.len() as int;
    if n > 0 {
        let rest = s.drop_last();
        assert forall|i: int| 0 <= i < rest.len() implies low <= (#[trigger] rest[i]).value()
            <= high by {
            assert(rest[i] == s[i]);
        }
        an_exact_sum_lies_between_its_extremes(rest, low, high);
        assert(s.last() == s[n - 1]);
        assert((n - 1) * low + low == n * low) by (nonlinear_arith);
        assert((n - 1) * high + high == n * high) by (nonlinear_arith);
    } else {
        assert(0 * low == 0 && 0 * high == 0) by (nonlinear_arith);
    }
}

/// For speech that varies by a decibel or more, with a mean below 95 dB, the
/// threshold of the everyday mode lies above the mean.
pub proof fn in_normal_mode_the_threshold_is_above_the_mean(samples: Seq<Single>)
    requires
        samples.len() <= usize::MAX,
        all_bounded(samples),
        speech(samples).len() >= MIN_ACTIVE_SAMPLES,
        !standard_deviation(speech(samples)).below(Single { bits: LEVEL_SPEECH_DB }),
        mean(speech(samples)).below(Single { bits: MAX_THRESHOLD_DB }),
    ensures
        ({
            let stats = threshold_stats(samples, CalibMode::Normal);
            stats.mean.below(stats.threshold)
        }),
{
    let s = speech(samples);
    lemma_speech(samples);
    samples.lemma_filter_len(|x: Single| is_speech(x));
    lemma_figures(s);
    let m = mean(s);
    let std = standard_deviation(s);
    let factor = Single { bits: DEVIATIONS };
    let t = factor.times(std);
    lemma_times(factor, std);
    lemma_raw_threshold(s, CalibMode::Normal);
    let raw = m.plus(t);
    let one = Single { bits: LEVEL_SPEECH_DB };
    // The distance from the mean is 3/2 or more.
    lemma2_to64();
    lemma_pow2_adds(23, 126);
    lemma_pow2_adds(22, 126);
    lemma_pow2_pos(126);
    lemma_pow2_pos(149);
    let u = pow2(149);
    assert(units(LEVEL_SPEECH_DB as nat) == u);
    let three_halves = units(DEVIATIONS as nat);
    let g = pow2(126);
    assert(three_halves >= u) by (nonlinear_arith)
        requires
            three_halves == 0xc0_0000 * g,
            u == 0x80_0000 * g,
            g > 0,
    ;
    if std.is_finite() {
        order_is_by_value(std, one);
        let v = units(std.magnitude());
        assert(v >= u);
        assert(three_halves * u <= three_halves * v) by (nonlinear_arith)
            requires
                u <= v,
        ;
        rounding_keeps_representable(DEVIATIONS as nat, u);
        assert((three_halves * u) * u <= (three_halves * v) * u) by (nonlinear_arith)
            requires
                three_halves * u <= three_halves * v,
        ;
        rounding_is_monotone(three_halves * u, u, three_halves * v, u);
        assert(three_halves * v > 0) by (nonlinear_arith)
            requires
                three_halves >= 1,
                v >= 1,
        ;
        assert(t.bits >= DEVIATIONS);
    }
    // The next number above the mean is no further away.
    if t.is_finite() {
        let b = m.magnitude();
        lemma_next_units(b);
        order_is_by_value(factor, t);
        let n = units(b) + units(t.magnitude());
        rounding_keeps_representable(b + 1, 1);
        rounding_is_monotone(units(b + 1) * 1, 1, n, 1);
        assert(raw.bits >= b + 1);
    }
}

/// A product of a multiple of ten with the number nearest to 9/10 rounds to nine tenths
/// of it, though that number is a little less than 9/10.
proof fn lemma_nine_tenths_of_tens(m: nat)
    requires
        0 < m,
        9 * m < 0x100_0000,
    ensures
        ({
            let p = pow2(149);
            let w = units(PERCENTILE as nat);
            rounded((10 * m * p) * w, p) == rounded((9 * m) * p, 1)
        }),
{
    let p = pow2(149);
    let g = pow2(125);
    let w = units(PERCENTILE as nat);
    let b = rounded((9 * m) * p, 1);
    let x = 10 * m * w;
    let n = (10 * m * p) * w;
    let r = rounded(n, p);
    lemma2_to64();
    lemma_pow2_pos(149);
    lemma_pow2_pos(125);
    lemma_pow2_adds(24, 125);
    lemma_small_int(9 * m);
    assert(w == 15_099_494 * g);
    assert(x == (9 * m) * p - 4 * (m * g)) by (nonlinear_arith)
        requires
            x == 10 * m * w,
            w == 15_099_494 * g,
            p == 0x100_0000 * g,
    ;
    assert(n == x * p) by (nonlinear_arith)
        requires
            n == (10 * m * p) * w,
            x == 10 * m * w,
    ;
    assert(m * g > 0) by (nonlinear_arith)
        requires
            m > 0,
            g > 0,
    ;
    let y = (9 * m) * p;
    assert(n * p <= (y * p) * p) by (nonlinear_arith)
        requires
            n == x * p,
            x <= y,
    ;
    rounding_is_monotone(n, p, y * p, p);
    rounding_keeps_representable(b, p);
    if r < b {
        let c = (b - 1) as nat;
        order_is_by_value(Single { bits: r as u32 }, Single { bits: c as u32 });
        lemma_gap_below(b);
        rounding_is_nearest(n, p, b);
        let gap = y - units(c);
        assert(y == 0x100_0000 * (9 * (m * g))) by (nonlinear_arith)
            requires
                y == (9 * m) * p,
                p == 0x100_0000 * g,
        ;
        assert(gap >= 9 * (m * g));
        let far = x - units(r);
        assert(far >= gap - 4 * (m * g));
        assert(n - p * units(r) == p * far && p * y - n == p * (4 * (m * g))) by (nonlinear_arith)
            requires
                n == x * p,
                far == x - units(r),
                x == y - 4 * (m * g),
        ;
        assert(p * far > p * (4 * (m * g))) by (nonlinear_arith)
            requires
                far > 4 * (m * g),
                p > 0,
        ;
    }
}

/// The place of the percentile is nine tenths of the number of readings, rounded down.
pub proof fn the_percentile_is_the_ninetieth(n: nat)
    requires
        0 < n <= 1_000_000,
    ensures
        percentile_index(n) == 9 * n / 10,
{
    let p = pow2(149);
    let g = pow2(125);
    let h = pow2(145);
    let w = units(PERCENTILE as nat);
    let k = 9 * n / 10;
    let x = n * w;
    let product = of_int(n as int).times(Single { bits: PERCENTILE });
    let r = rounded((n * p) * w, p);
    let b = rounded(k * p, 1);
    let c = rounded((16 * k + 15) * h, 1);
    lemma2_to64();
    lemma_pow2_pos(149);
    lemma_pow2_pos(125);
    lemma_pow2_pos(145);
    lemma_pow2_adds(24, 125);
    lemma_pow2_adds(4, 145);
    lemma_count(n);
    lemma_small_int(n);
    lemma_small_int(k);
    lemma_representable(16 * k + 15, 145);
    assert(w == 15_099_494 * g);
    assert((n * p) * w == x * p && x > 0 && (n * p) * w > 0) by (nonlinear_arith)
        requires
            x == n * w,
            n > 0,
            w > 0,
            p > 0,
    ;
    assert(10 * x == 9 * (n * p) - 4 * (n * g)) by (nonlinear_arith)
        requires
            x == n * w,
            w == 15_099_494 * g,
            p == 0x100_0000 * g,
    ;
    let left = 9 * n - 10 * k;
    assert(9 * (n * p) == 10 * (k * p) + left * p) by (nonlinear_arith)
        requires
            left == 9 * n - 10 * k,
    ;
    assert(0 <= 4 * (n * g) < p) by (nonlinear_arith)
        requires
            p == 0x100_0000 * g,
            0 <= n <= 1_000_000,
            g > 0,
    ;
    assert(left * p <= 9 * p) by (nonlinear_arith)
        requires
            left <= 9,
            p > 0,
    ;
    // The product is below k + 15/16.
    let top = (16 * k + 15) * h;
    assert(16 * (k * h) == k * p && top == 16 * (k * h) + 15 * h) by (nonlinear_arith)
        requires
            p == 16 * h,
            top == (16 * k + 15) * h,
    ;
    assert(x <= top);
    assert((x * p) * p <= (top * p) * p) by (nonlinear_arith)
        requires
            x <= top,
    ;
    rounding_is_monotone(x * p, p, top * p, p);
    rounding_keeps_representable(c, p);
    assert(r <= c);
    // It is not below k, or rounds to it.
    if left > 0 {
        assert(left * p >= p) by (nonlinear_arith)
            requires
                left >= 1,
                p > 0,
        ;
        assert(x >= k * p);
        assert(((k * p) * p) * p <= (x * p) * p) by (nonlinear_arith)
            requires
                k * p <= x,
        ;
        rounding_is_monotone((k * p) * p, p, x * p, p);
        rounding_keeps_representable(b, p);
    } else {
        let m = n / 10;
        assert(n == 10 * m && k == 9 * m);
        lemma_nine_tenths_of_tens(m);
    }
    assert(b <= r);
    order_is_by_value(Single { bits: b as u32 }, Single { bits: r as u32 });
    order_is_by_value(Single { bits: r as u32 }, Single { bits: c as u32 });
    let v = units(r);
    assert(k * p <= v < k * p + p);
    assert(k * p == p * k) by (nonlinear_arith);
    lemma_fundamental_div_mod_converse(v as int, p as int, k as int, v - k * p);
    assert(product == (Single { bits: r as u32 }));
    assert(product.whole_part() == k);
}

/// For speech that hardly varies the threshold of the everyday mode, before it is
/// held in its range, is one of the readings: none of those up to its place, from
/// the quietest on, is louder, and none of those after it is quieter. So of level
/// readings that are all the same it is that reading.
pub proof fn level_speech_gives_one_of_its_readings(s: Seq<Single>)
    requires
        s.len() > 0,
        standard_deviation(s).below(Single { bits: LEVEL_SPEECH_DB }),
    ensures
        ({
            let t = raw_threshold(s, CalibMode::Normal);
            let sorted = from_quiet_to_loud(s);
            let i = percentile_index(s.len());
            &&& s.contains(t)
            &&& 0 <= i < sorted.len() == s.len()
            &&& t == sorted[i]
            &&& forall|j: int| 0 <= j <= i ==> no_louder(#[trigger] sorted[j], t)
            &&& forall|j: int| i <= j < sorted.len() ==> no_louder(t, #[trigger] sorted[j])
            &&& (forall|j: int| 0 <= j < s.len() ==> #[trigger] s[j] == s[0]) ==> t == s[0]
        }),
{
    lemma_sorted(s);
    let sorted = from_quiet_to_loud(s);
    let leq = |a: Single, b: Single| no_louder(a, b);
    let i = percentile_index(s.len());
    let t = sorted[i];
    assert(sorted.contains(t));
    assert forall|j: int| 0 <= j <= i implies no_louder(#[trigger] sorted[j], t) by {
        if j < i {
            assert(leq(sorted[j], sorted[i]));
        }
    }
    assert forall|j: int| i <= j < sorted.len() implies no_louder(t, #[trigger] sorted[j]) by {
        if i < j {
            assert(leq(sorted[i], sorted[j]));
        }
    }
}

/// Opening a window, taking readings and closing it collects exactly those
/// readings, in their order, and a second request to open one meanwhile changes
/// nothing.
pub proof fn a_window_collects_its_readings(window: Window, dbs: Seq<Single>)
    requires
        !window.active,
    ensures
        window.opened().with_all(dbs) == (Window { active: true, samples: dbs }),
        window.opened().with_all(dbs).opened() == window.opened().with_all(dbs),
        window.opened().with_all(dbs).closed() == (Window { active: false, samples: dbs }),
    decreases dbs.len(),
{
    if dbs.len() > 0 {
        a_window_collects_its_readings(window, dbs.drop_last());
        assert(dbs.drop_last().push(dbs.last()) =~= dbs);
    } else {
        assert(dbs =~= Seq::empty());
    }
}

/// Without an open window readings are not collected.
pub proof fn readings_outside_a_window_are_not_collected(window: Window, dbs: Seq<Single>)
    requires
        !window.active,
    ensures
        window.with_all(dbs) == window,
    decreases dbs.len(),
{
    if dbs.len() > 0 {
        readings_outside_a_window_are_not_collected(window, dbs.drop_last());
    }
}

/// The name of a mode stands for that mode.
pub proof fn names_stand_for_their_modes(mode: CalibMode)
    ensures
        CalibMode::named(mode.name()) == mode,
{
    reveal_strlit("limit");
    reveal_strlit("normal");
    assert("limit"@.len() != "normal"@.len());
}

/// The names of the modes are `limit` and `normal`, and every other name stands for
/// everyday speech too.
pub proof fn only_limit_stands_for_the_limit_mode(name: Seq<char>)
    ensures
        CalibMode::named(name) == CalibMode::Limit <==> name == seq!['l', 'i', 'm', 'i', 't'],
        CalibMode::Limit.name() == seq!['l', 'i', 'm', 'i', 't'],
        CalibMode::Normal.name() == seq!['n', 'o', 'r', 'm', 'a', 'l'],
{
    reveal_strlit("limit");
    reveal_strlit("normal");
    assert("limit"@ =~= seq!['l', 'i', 'm', 'i', 't']);
    assert("normal"@ =~= seq!['n', 'o', 'r', 'm', 'a', 'l']);
}

/// A report holds the figures that it shows.
pub proof fn a_report_holds_its_figures(report: CalibrationResult)
    ensures
        report.stats().threshold == report.threshold,
        report.stats().mean == report.mean,
        report.stats().std_dev == report.std_dev,
        report.stats().min == report.min,
        report.stats().max == report.max,
{
}

/// A request to open a window opens an empty one exactly if none is open, a reading is
/// added at the end of an open window and of no other, and the end of a window leaves its
/// readings as they are.
pub proof fn a_window_is_open_or_not(window: Window, db: Single)
    ensures
        window.opened().active,
        window.active ==> window.opened() == window,
        !window.active ==> window.opened().samples.len() == 0,
        window.with(db).active == window.active,
        window.active ==> window.with(db).samples == window.samples + seq![db],
        !window.active ==> window.with(db).samples == window.samples,
        !window.closed().active,
        window.closed().samples == window.samples,
{
    if window.active {
        assert(window.with(db).samples =~= window.samples + seq![db]);
    }
}

/// A window is meant to stay open for ten seconds, the display to get a reading every
/// 100 ms, and ten readings of speech to be enough for a threshold.
pub proof fn the_amounts_are_as_promised()
    ensures
        CALIBRATION_WINDOW_SECS == 10,
        EMIT_INTERVAL_MS == 100,
        MIN_ACTIVE_SAMPLES == 10,
        POLL_INTERVAL_MS == 50,
        SWITCH_POLLS == 6,
{
}

} // verus!
