//! What a single sample or reading adds, and what is made of the sum: steps of which each
//! is rounded once, however many there are.
use crate::accuracy::close;
use crate::accuracy::lemma_close_scaled;
use crate::accuracy::lemma_close_through;
use crate::accuracy::lemma_quotient_error;
use crate::accuracy::lemma_root_error;
use crate::arithmetic_laws::products_are_rounded_to_nearest;
use crate::arithmetic_laws::quotients_are_rounded_to_nearest;
use crate::arithmetic_laws::rounds;
use crate::arithmetic_laws::sums_are_rounded_to_nearest;
use crate::calibration::deviation_sum;
use crate::calibration::mean;
use crate::calibration::speech;
use crate::calibration::standard_deviation;
use crate::calibration::sum;
use crate::calibration::threshold_stats;
use crate::calibration::CalibMode;
use crate::calibration_laws::all_bounded;
use crate::calibration_laws::lemma_figures;
use crate::calibration_laws::lemma_speech;
use crate::convert::of_int;
use crate::figure_laws::differences;
use crate::figure_laws::lemma_differences;
use crate::figure_laws::lemma_differences_close;
use crate::figure_laws::the_mean_is_exact_up_to_rounding;
use crate::level::root_mean_square;
use crate::level::square_sum;
use crate::level_laws::all_numbers;
use crate::level_laws::lemma_square_sum;
use crate::positive::lemma_count;
use crate::single::units;
use crate::single::Single;
use vstd::arithmetic::power2::lemma_pow2_pos;
use vstd::arithmetic::power2::pow2;
use vstd::prelude::*;

verus! {

/// Every sample adds its square to the sum, rounded to nearest: the square, and the sum.
pub proof fn every_sample_adds_its_square(samples: Seq<Single>, x: Single, z: Single)
    requires
        square_sum(samples).is_finite(),
        x.is_finite(),
        x.times(x).is_finite(),
    ensures
        rounds(x.value() * x.value(), pow2(149), x.times(x), z),
        rounds(
            square_sum(samples).value() + x.times(x).value(),
            1,
            square_sum(samples.push(x)),
            z,
        ),
        square_sum(Seq::empty()) == (Single { bits: 0 }),
{
    assert(samples.push(x).drop_last() =~= samples);
    products_are_rounded_to_nearest(x, x, x, z);
    sums_are_rounded_to_nearest(square_sum(samples), x.times(x), z);
}

/// The amplitude is the root of the share of each sample in the sum of the squares: its
/// square times the number of samples is that sum up to three steps of rounding, however
/// many samples there are, and a unit of 2^-149 for each.
pub proof fn the_amplitude_is_the_root_of_the_mean_square(samples: Seq<Single>)
    requires
        0 < samples.len() <= usize::MAX,
        all_numbers(samples),
        square_sum(samples).is_finite(),
    ensures
        ({
            let a = root_mean_square(samples).value();
            let n = samples.len();
            close((a * a) * n, square_sum(samples).value() * pow2(149), 3, (n * pow2(149)) as int)
        }),
{
    let u = pow2(149);
    let n = samples.len();
    let total = square_sum(samples);
    let share = total.over(of_int(n as int));
    let r = root_mean_square(samples).value();
    let q = share.value();
    let s = total.value();
    lemma_pow2_pos(149);
    lemma_square_sum(samples);
    lemma_quotient_error(total, n);
    lemma_root_error(share);
    lemma_close_scaled(r * r, q * u, 2, 0, n as int);
    lemma_close_scaled(q * n, s, 1, n as int, u as int);
    assert(0 * n == 0 && (q * u) * n == (q * n) * u && n * u >= 0) by (nonlinear_arith)
        requires
            u > 0,
            n >= 0,
    ;
    lemma_close_through((r * r) * n, (q * n) * u, s * u, 2, 1, 0, (n * u) as int);
}

/// Every reading adds itself to the sum, rounded to nearest, and the square of its rounded
/// distance from `m` to the sum of the squared distances.
pub proof fn every_reading_adds_itself(s: Seq<Single>, x: Single, m: Single, z: Single)
    requires
        x.is_finite(),
        m.is_finite(),
    ensures
        sum(s).is_finite() ==> rounds(sum(s).value() + x.value(), 1, sum(s.push(x)), z),
        sum(Seq::empty()) == (Single { bits: 0 }),
        rounds(x.value() - m.value(), 1, x.minus(m), z),
        ({
            let d = x.minus(m);
            let square = d.times(d);
            &&& d.is_finite() ==> rounds(d.value() * d.value(), pow2(149), square, z)
            &&& deviation_sum(s, m).is_finite() && square.is_finite() ==> rounds(
                deviation_sum(s, m).value() + square.value(),
                1,
                deviation_sum(s.push(x), m),
                z,
            )
        }),
        deviation_sum(Seq::empty(), m) == (Single { bits: 0 }),
{
    let d = x.minus(m);
    assert(s.push(x).drop_last() =~= s);
    sums_are_rounded_to_nearest(x, m, z);
    if sum(s).is_finite() {
        sums_are_rounded_to_nearest(sum(s), x, z);
    }
    if d.is_finite() {
        products_are_rounded_to_nearest(d, d, d, z);
        if deviation_sum(s, m).is_finite() && d.times(d).is_finite() {
            sums_are_rounded_to_nearest(deviation_sum(s, m), d.times(d), z);
        }
    }
}

/// The reported mean is the number nearest to the sum of the readings of speech by their
/// number as it is held, and the reported deviation is the root of the share of each in the
/// sum of the squared distances from that mean: its square times the number of readings is
/// that sum up to three steps of rounding, however many they are.
pub proof fn the_figures_are_shares_of_the_sums(samples: Seq<Single>, mode: CalibMode, z: Single)
    requires
        all_bounded(samples),
        10 <= speech(samples).len() <= usize::MAX,
        sum(speech(samples)).is_finite(),
        deviation_sum(speech(samples), mean(speech(samples))).is_finite(),
    ensures
        ({
            let s = speech(samples);
            let n = s.len();
            let stats = threshold_stats(samples, mode);
            let v = stats.std_dev.value();
            &&& rounds(
                sum(s).value() * pow2(149),
                units(of_int(n as int).magnitude()),
                stats.mean,
                z,
            )
            &&& close(
                (v * v) * n,
                deviation_sum(s, stats.mean).value() * pow2(149),
                3,
                (n * pow2(149)) as int,
            )
        }),
{
    let s = speech(samples);
    let n = s.len();
    let m = mean(s);
    let t = differences(s, m);
    lemma_speech(samples);
    lemma_figures(s);
    lemma_count(n);
    quotients_are_rounded_to_nearest(sum(s), of_int(n as int), z);
    the_mean_is_exact_up_to_rounding(samples, mode);
    lemma_differences(s, m);
    lemma_differences_close(s, m);
    assert(standard_deviation(s) == root_mean_square(t));
    the_amplitude_is_the_root_of_the_mean_square(t);
}

} // verus!
