//! How near the figures of a calibration are to the exact ones.
use crate::accuracy::close;
use crate::accuracy::lemma_close_squares;
use crate::accuracy::lemma_close_sum;
use crate::accuracy::lemma_close_through;
use crate::accuracy::lemma_exactly;
use crate::accuracy::lemma_no_more_divided;
use crate::accuracy::lemma_no_more_through;
use crate::accuracy::lemma_quotient_error;
use crate::accuracy::lemma_rounding_error;
use crate::accuracy::no_more;
use crate::calibration::deviation_sum;
use crate::calibration::is_speech;
use crate::calibration::mean;
use crate::calibration::speech;
use crate::calibration::standard_deviation;
use crate::calibration::sum;
use crate::calibration::threshold_stats;
use crate::calibration::CalibMode;
use crate::calibration::MIN_ACTIVE_SAMPLES;
use crate::calibration_laws::all_bounded;
use crate::calibration_laws::an_exact_sum_lies_between_its_extremes;
use crate::calibration_laws::exact_sum;
use crate::calibration_laws::is_metered;
use crate::calibration_laws::lemma_speech;
use crate::calibration_laws::lemma_sum;
use crate::calibration_laws::the_extremes_are_readings;
use crate::level::reading;
use crate::level::root_mean_square;
use crate::level::square_sum;
use crate::level::SILENCE_DB;
use crate::level::TOP_DB;
use crate::level_laws::a_reading_stays_on_the_scale;
use crate::level_laws::lemma_plus_monotone;
use crate::level_laws::no_reading_is_infinite;
use crate::loudness_laws::exact_square_sum;
use crate::loudness_laws::lemma_square_monotone;
use crate::loudness_laws::the_amplitude_is_exact_up_to_rounding;
use crate::positive::lemma_square;
use crate::precision::order_is_by_value;
use crate::precision::rounding_is_monotone;
use crate::precision::rounding_keeps_representable;
use crate::rounding::lemma_last_place_unique;
use crate::rounding::rounded;
use crate::rounding::INFINITY_BITS;
use crate::single::lemma_rounded_small;
use crate::single::units;
use crate::single::Single;
use vstd::arithmetic::div_mod::lemma_fundamental_div_mod_converse;
use vstd::arithmetic::power2::lemma2_to64;
use vstd::arithmetic::power2::lemma_pow2_adds;
use vstd::arithmetic::power2::lemma_pow2_pos;
use vstd::arithmetic::power2::lemma_pow2_unfold;
use vstd::arithmetic::power2::pow2;
use vstd::prelude::*;

verus! {

/// Whether every number is finite and, by its sign too, at or above zero.
pub open spec fn all_positive(s: Seq<Single>) -> bool {
    forall|i: int| 0 <= i < s.len() ==> (#[trigger] s[i]).is_finite() && s[i].at_least_zero()
}

/// The sum of numbers from zero on is the exact one up to a step of rounding for each of
/// them, and one more.
pub proof fn a_sum_is_exact_up_to_rounding(s: Seq<Single>)
    requires
        all_positive(s),
        sum(s).is_finite(),
    ensures
        close(sum(s).value(), exact_sum(s), s.len() + 1, 0),
        exact_sum(s) >= 0,
    decreases s.len(),
{
    let n = s.len();
    if n == 0 {
        lemma_exactly(0, 0, 1);
    } else {
        let rest = s.drop_last();
        let x = s[n - 1];
        assert forall|i: int| 0 <= i < rest.len() implies (#[trigger] rest[i]).is_finite()
            && rest[i].at_least_zero() by {
            assert(rest[i] == s[i]);
        }
        assert(x.is_finite() && x.at_least_zero());
        lemma_sum(rest);
        lemma_sum(s);
        assert(sum(rest).is_finite());
        a_sum_is_exact_up_to_rounding(rest);
        let before = sum(rest).value();
        let v = x.value();
        let t = sum(s).value();
        lemma_rounded_small(0, 1);
        assert(units(rounded((before + v) as nat, 1)) == t);
        lemma_rounding_error((before + v) as nat, 1);
        lemma_exactly(v, v, n);
        lemma_close_sum(before, exact_sum(rest), v, v, n, 0, 0);
        lemma_close_through(t, before + v, exact_sum(s), 1, n, 0, 0);
    }
}

/// The reported mean is the exact one up to rounding: times the number of readings of
/// speech it is their sum up to two steps of rounding more than there are readings, and a
/// unit of 2^-149 for each of them.
pub proof fn the_mean_is_exact_up_to_rounding(samples: Seq<Single>, mode: CalibMode)
    requires
        all_bounded(samples),
        MIN_ACTIVE_SAMPLES <= speech(samples).len() <= usize::MAX,
        sum(speech(samples)).is_finite(),
    ensures
        ({
            let s = speech(samples);
            let m = threshold_stats(samples, mode).mean;
            &&& m.is_finite()
            &&& m.at_least_zero()
            &&& close(m.value() * s.len(), exact_sum(s), s.len() + 2, s.len() as int)
        }),
{
    let s = speech(samples);
    let n = s.len();
    lemma_speech(samples);
    lemma_sum(s);
    a_sum_is_exact_up_to_rounding(s);
    lemma_quotient_error(sum(s), n);
    lemma_close_through(
        mean(s).value() * n,
        sum(s).value(),
        exact_sum(s),
        1,
        n + 1,
        n as int,
        0,
    );
}

/// The reported mean lies between the reported extremes up to rounding, whatever the
/// readings are: up to two steps of rounding more than there are readings of speech, and
/// a unit of 2^-149.
pub proof fn the_mean_lies_between_the_extremes_up_to_rounding(
    samples: Seq<Single>,
    mode: CalibMode,
)
    requires
        all_bounded(samples),
        MIN_ACTIVE_SAMPLES <= speech(samples).len() <= usize::MAX,
        sum(speech(samples)).is_finite(),
    ensures
        ({
            let n = speech(samples).len();
            let stats = threshold_stats(samples, mode);
            &&& no_more(stats.min.value(), stats.mean.value(), n + 2, 1)
            &&& no_more(stats.mean.value(), stats.max.value(), n + 2, 1)
        }),
{
    let s = speech(samples);
    let n = s.len();
    let stats = threshold_stats(samples, mode);
    let low = stats.min.value();
    let high = stats.max.value();
    let m = stats.mean.value();
    let e = exact_sum(s);
    lemma_speech(samples);
    the_mean_is_exact_up_to_rounding(samples, mode);
    a_sum_is_exact_up_to_rounding(s);
    the_extremes_are_readings(samples, mode);
    assert forall|i: int| 0 <= i < s.len() implies low <= (#[trigger] s[i]).value() <= high by {
        order_is_by_value(s[i], stats.min);
        order_is_by_value(stats.max, s[i]);
    }
    an_exact_sum_lies_between_its_extremes(s, low, high);
    assert(low * n == n * low && high * n == n * high && 1 * n == n && low * n >= 0)
        by (nonlinear_arith)
        requires
            low >= 0,
            n >= 0,
    ;
    lemma_exactly(low * n, e, 0);
    lemma_exactly(e, high * n, 0);
    lemma_no_more_through(low * n, e, m * n, 0, n + 2, 0, n as int);
    lemma_no_more_through(m * n, e, high * n, n + 2, 0, n as int, 0);
    lemma_no_more_divided(low, m, n + 2, 1, n as int);
    lemma_no_more_divided(m, high, n + 2, 1, n as int);
}

/// The rounded differences of readings from a number.
pub open spec fn differences(s: Seq<Single>, m: Single) -> Seq<Single> {
    s.map_values(|x: Single| x.minus(m))
}

/// The exact sum of the squared distances of readings from `m` units of 2^-149.
pub open spec fn exact_deviation_sum(s: Seq<Single>, m: int) -> int
    decreases s.len(),
{
    if s.len() == 0 {
        0
    } else {
        let d = s.last().value() - m;
        exact_deviation_sum(s.drop_last(), m) + d * d
    }
}

/// The sum of the squared distances is the sum of the squares of the differences.
pub(crate) proof fn lemma_differences(s: Seq<Single>, m: Single)
    ensures
        deviation_sum(s, m) == square_sum(differences(s, m)),
    decreases s.len(),
{
    if s.len() > 0 {
        lemma_differences(s.drop_last(), m);
        assert(differences(s, m).drop_last() =~= differences(s.drop_last(), m));
    }
}

/// A difference of finite numbers from zero on is finite and close to the exact one.
proof fn lemma_difference(x: Single, m: Single)
    requires
        x.is_finite(),
        x.at_least_zero(),
        m.is_finite(),
        m.at_least_zero(),
    ensures
        x.minus(m).is_finite(),
        x.bits <= m.bits ==> x.minus(m).magnitude() <= m.bits,
        m.bits <= x.bits ==> x.minus(m).magnitude() <= x.bits,
        ({
            let d = x.minus(m).value();
            let e = x.value() - m.value();
            close(d * d, e * e, 2, 0)
        }),
{
    let e = x.value() - m.value();
    let a = (if e < 0 {
        -e
    } else {
        e
    }) as nat;
    let d = x.minus(m);
    order_is_by_value(x, m);
    assert(m.negated().value() == -m.value());
    lemma_rounded_small(0, 1);
    rounding_keeps_representable(x.magnitude(), 1);
    rounding_keeps_representable(m.magnitude(), 1);
    if m.value() <= x.value() {
        rounding_is_monotone(a, 1, units(x.magnitude()) * 1, 1);
    } else {
        rounding_is_monotone(a, 1, units(m.magnitude()) * 1, 1);
    }
    assert(d.magnitude() == rounded(a, 1));
    lemma_rounding_error(a, 1);
    let r = units(rounded(a, 1)) as int;
    lemma_close_squares(r, a as int);
    let v = d.value();
    assert(v * v == r * r && e * e == a * a) by (nonlinear_arith)
        requires
            v == r || v == -r,
            e == a || e == -a,
    ;
}

pub(crate) proof fn lemma_differences_close(s: Seq<Single>, m: Single)
    requires
        all_positive(s),
        m.is_finite(),
        m.at_least_zero(),
    ensures
        forall|i: int| 0 <= i < s.len() ==> (#[trigger] differences(s, m)[i]).is_finite(),
        close(exact_square_sum(differences(s, m)), exact_deviation_sum(s, m.value()), 2, 0),
    decreases s.len(),
{
    let n = s.len();
    let t = differences(s, m);
    if n == 0 {
        lemma_exactly(0, 0, 2);
    } else {
        let rest = s.drop_last();
        let x = s[n - 1];
        assert forall|i: int| 0 <= i < rest.len() implies (#[trigger] rest[i]).is_finite()
            && rest[i].at_least_zero() by {
            assert(rest[i] == s[i]);
        }
        assert(x.is_finite() && x.at_least_zero());
        lemma_differences_close(rest, m);
        assert(t.drop_last() =~= differences(rest, m));
        lemma_difference(x, m);
        assert forall|i: int| 0 <= i < s.len() implies (#[trigger] t[i]).is_finite() by {
            if i < n - 1 {
                assert(t[i] == differences(rest, m)[i]);
            }
        }
        let d = x.minus(m).value();
        let e = x.value() - m.value();
        lemma_close_sum(
            exact_square_sum(differences(rest, m)),
            exact_deviation_sum(rest, m.value()),
            d * d,
            e * e,
            2,
            0,
            0,
        );
    }
}

/// The reported deviation is the exact one about the reported mean up to rounding: its
/// square, times the number of readings of speech, is the sum of their squared distances
/// from that mean up to six steps of rounding more than there are readings, and two units
/// of 2^-149 for each of them.
pub proof fn the_deviation_is_exact_up_to_rounding(samples: Seq<Single>, mode: CalibMode)
    requires
        all_bounded(samples),
        MIN_ACTIVE_SAMPLES <= speech(samples).len() <= usize::MAX,
        sum(speech(samples)).is_finite(),
        deviation_sum(speech(samples), mean(speech(samples))).is_finite(),
    ensures
        ({
            let s = speech(samples);
            let n = s.len();
            let stats = threshold_stats(samples, mode);
            &&& stats.std_dev.is_finite()
            &&& stats.std_dev.at_least_zero()
            &&& close(
                (stats.std_dev.value() * stats.std_dev.value()) * n,
                exact_deviation_sum(s, stats.mean.value()),
                n + 6,
                2 * (n * pow2(149)) as int,
            )
        }),
{
    let s = speech(samples);
    let n = s.len();
    let m = mean(s);
    let t = differences(s, m);
    let v = standard_deviation(s).value();
    let lost = 2 * (n * pow2(149)) as int;
    lemma_speech(samples);
    the_mean_is_exact_up_to_rounding(samples, mode);
    lemma_differences(s, m);
    lemma_differences_close(s, m);
    assert(standard_deviation(s) == root_mean_square(t));
    the_amplitude_is_exact_up_to_rounding(t);
    assert(lost >= 0) by (nonlinear_arith)
        requires
            lost == 2 * (n * pow2(149)),
            n >= 0,
            pow2(149) >= 0,
    ;
    lemma_close_through(
        (v * v) * n,
        exact_square_sum(t),
        exact_deviation_sum(s, m.value()),
        n + 4,
        2,
        lost,
        0,
    );
}

/// The squared distances from any number are those from the exact mean, and the square of
/// the number's own distance from it for each reading. Both sides are given times the
/// number of readings, so that the exact mean needs no quotient.
pub proof fn distances_are_least_from_the_exact_mean(s: Seq<Single>, m: int)
    ensures
        ({
            let n = s.len() as int;
            let e = exact_sum(s);
            n * exact_deviation_sum(s, m) == (n * exact_square_sum(s) - e * e) + (n * m - e) * (n
                * m - e)
        }),
{
    let n = s.len() as int;
    let e = exact_sum(s);
    let q = exact_square_sum(s);
    lemma_expanded(s, m);
    assert(n * (q - 2 * m * e + n * (m * m)) == (n * q - e * e) + (n * m - e) * (n * m - e))
        by (nonlinear_arith);
}

proof fn lemma_expanded(s: Seq<Single>, m: int)
    ensures
        exact_deviation_sum(s, m) == exact_square_sum(s) - 2 * m * exact_sum(s) + s.len() * (m
            * m),
    decreases s.len(),
{
    let n = s.len() as int;
    if n == 0 {
        assert(2 * m * 0 == 0 && 0 * (m * m) == 0) by (nonlinear_arith);
    } else {
        let rest = s.drop_last();
        let x = s.last().value();
        let e = exact_sum(rest);
        lemma_expanded(rest, m);
        assert((x - m) * (x - m) == x * x - 2 * m * x + m * m) by (nonlinear_arith);
        assert(2 * m * (e + x) == 2 * m * e + 2 * m * x) by (nonlinear_arith);
        assert(n * (m * m) == (n - 1) * (m * m) + m * m) by (nonlinear_arith);
    }
}

/// The magnitude bits of a power of two units.
spec fn power_bits(e: nat) -> nat {
    ((e - 22) * 0x80_0000) as nat
}

/// A power of two is represented, and a number that is small beside it is lost in adding
/// it.
proof fn lemma_saturates(e: nat, x: nat)
    requires
        25 <= e <= 276,
        x <= pow2((e - 25) as nat),
    ensures
        rounded(pow2(e) + x, 1) == power_bits(e),
        units(power_bits(e)) == pow2(e),
        power_bits(e) < INFINITY_BITS,
{
    let v = pow2(e) + x;
    let k = (e - 23) as nat;
    let s = pow2(k);
    let z = pow2((e - 25) as nat);
    lemma2_to64();
    lemma_pow2_pos(k);
    lemma_pow2_pos((e - 25) as nat);
    lemma_pow2_adds(23, k);
    lemma_pow2_adds(2, (e - 25) as nat);
    lemma_pow2_unfold(e + 1);
    assert(24 + k == e + 1 && 23 + k == e);
    lemma_last_place_unique(v, 1, k);
    assert(1 * s == s);
    assert(v == s * 0x80_0000 + x) by (nonlinear_arith)
        requires
            v == 0x80_0000 * s + x,
    ;
    lemma_fundamental_div_mod_converse(v as int, s as int, 0x80_0000, x as int);
    let b = power_bits(e);
    assert(b == (k + 1) * 0x80_0000);
    lemma_fundamental_div_mod_converse(b as int, 0x80_0000, (k + 1) as int, 0);
}

/// Sums of bounded numbers stay bounded, however many they are: beyond a power of two the
/// rest is lost in rounding.
proof fn lemma_bounded_step(a: Single, x: Single, e: nat)
    requires
        25 <= e <= 276,
        a.bits <= power_bits(e),
        x.bits <= power_bits((e - 25) as nat),
        e >= 50,
    ensures
        a.plus(x).bits <= power_bits(e),
{
    let f = (e - 25) as nat;
    lemma_saturates(e, pow2(f));
    lemma_saturates(f, 0);
    lemma_pow2_pos(e);
    let p = Single { bits: power_bits(e) as u32 };
    let q = Single { bits: power_bits(f) as u32 };
    lemma_plus_monotone(a, x, p, q);
}

/// Readings that the meter gives never add up to an infinite sum, nor do their squared
/// distances from the mean.
pub proof fn metered_readings_have_finite_sums(samples: Seq<Single>)
    requires
        MIN_ACTIVE_SAMPLES <= speech(samples).len() <= usize::MAX,
        forall|i: int| 0 <= i < samples.len() ==> is_metered(#[trigger] samples[i]),
    ensures
        all_bounded(samples),
        sum(speech(samples)).is_finite(),
        deviation_sum(speech(samples), mean(speech(samples))).is_finite(),
{
    let s = speech(samples);
    let m = mean(s);
    assert forall|i: int| 0 <= i < samples.len() implies !(#[trigger] samples[i]).is_infinite() && (
    samples[i].is_nan() || samples[i].rank() <= TOP_DB) by {
        let db = samples[i];
        assert(is_metered(db));
        if db.bits != SILENCE_DB && db.bits != TOP_DB {
            let log = choose|log: Single| db == #[trigger] reading(log);
            no_reading_is_infinite(log);
            if !log.is_nan() {
                a_reading_stays_on_the_scale(log);
            }
        }
    }
    lemma_speech(samples);
    assert forall|i: int| 0 <= i < s.len() implies (#[trigger] s[i]).bits <= TOP_DB by {
        let pred = |x: Single| is_speech(x);
        samples.lemma_filter_contains_rev(pred, s[i]);
        let j = choose|j: int| 0 <= j < samples.len() && samples[j] == s[i];
        assert(samples[j].is_nan() || samples[j].rank() <= TOP_DB);
    }
    lemma_bounded_sum(s);
    lemma_quotient_error(sum(s), s.len());
    lemma_bounded_deviation(s, m);
}

proof fn lemma_bounded_sum(s: Seq<Single>)
    requires
        forall|i: int| 0 <= i < s.len() ==> (#[trigger] s[i]).bits <= TOP_DB,
    ensures
        sum(s).bits <= power_bits(181),
    decreases s.len(),
{
    if s.len() > 0 {
        let rest = s.drop_last();
        assert forall|i: int| 0 <= i < rest.len() implies (#[trigger] rest[i]).bits <= TOP_DB by {
            assert(rest[i] == s[i]);
        }
        lemma_bounded_sum(rest);
        assert(s.last() == s[s.len() - 1]);
        lemma_bounded_step(sum(rest), s.last(), 181);
    }
}

proof fn lemma_bounded_deviation(s: Seq<Single>, m: Single)
    requires
        forall|i: int| 0 <= i < s.len() ==> (#[trigger] s[i]).bits <= TOP_DB,
        m.bits <= power_bits(181),
    ensures
        deviation_sum(s, m).bits <= power_bits(238),
    decreases s.len(),
{
    if s.len() > 0 {
        let rest = s.drop_last();
        let x = s[s.len() - 1];
        let d = x.minus(m);
        let p = Single { bits: power_bits(181) as u32 };
        let u = pow2(149);
        assert forall|i: int| 0 <= i < rest.len() implies (#[trigger] rest[i]).bits <= TOP_DB by {
            assert(rest[i] == s[i]);
        }
        lemma_bounded_deviation(rest, m);
        assert(x.bits <= TOP_DB);
        lemma_difference(x, m);
        lemma_square_monotone(d, p);
        lemma_square(d);
        lemma_saturates(181, 0);
        lemma_saturates(213, 0);
        lemma_pow2_pos(181);
        lemma_pow2_pos(149);
        lemma_pow2_adds(181, 181);
        lemma_pow2_adds(213, 149);
        lemma_pow2_pos(362);
        rounding_keeps_representable(power_bits(213), u);
        assert(p.times(p).bits == power_bits(213));
        lemma_bounded_step(deviation_sum(rest, m), d.times(d), 238);
    }
}

} // verus!
