//! What the level of a buffer says of its amplitude.
use crate::accuracy::lemma_root_error;
use crate::accuracy::PARTS;
use crate::convert::of_int;
use crate::level::level;
use crate::level::reading;
use crate::level::root_mean_square;
use crate::level::square_sum;
use crate::level::Level;
use crate::level::CLIPPING;
use crate::level::SILENCE_DB;
use crate::level::TOP_DB;
use crate::level_laws::all_numbers;
use crate::level_laws::lemma_square_sum;
use crate::loudness_laws::lemma_over_monotone;
use crate::loudness_laws::lemma_square_monotone;
use crate::positive::lemma_count;
use crate::positive::lemma_over;
use crate::positive::lemma_plus;
use crate::positive::lemma_root;
use crate::positive::lemma_root_monotone;
use crate::positive::lemma_square;
use crate::precision::order_is_by_value;
use crate::precision::rounding_is_monotone;
use crate::precision::rounding_keeps_representable;
use crate::rounding::INFINITY_BITS;
use crate::single::lemma_rounded_small;
use crate::single::units;
use crate::single::Single;
use vstd::arithmetic::power::lemma_pow_positive;
use vstd::arithmetic::power::pow;
use vstd::arithmetic::power2::lemma2_to64;
use vstd::arithmetic::power2::lemma_pow2_adds;
use vstd::arithmetic::power2::lemma_pow2_pos;
use vstd::arithmetic::power2::pow2;
use vstd::prelude::*;

verus! {

/// Of a buffer of numbers, whatever its length, the level is that of its root mean square:
/// silence exactly if that is zero, the top of the scale exactly if it is two or more, and
/// else to be had from its logarithm. An empty buffer is silent.
pub proof fn the_level_is_that_of_the_amplitude(samples: Seq<Single>)
    requires
        samples.len() <= usize::MAX,
        all_numbers(samples),
    ensures
        ({
            let a = root_mean_square(samples);
            let silent = level(samples) == Level::Reading(Single { bits: SILENCE_DB });
            let top = level(samples) == Level::Reading(Single { bits: TOP_DB });
            &&& samples.len() == 0 ==> silent
            &&& samples.len() > 0 ==> {
                &&& a.at_least_zero()
                &&& silent <==> a.value() == 0 && a.is_finite()
                &&& top <==> a.is_infinite() || a.value() >= 2 * pow2(149)
                &&& level(samples) == Level::LogOf(a) <==> a.is_finite() && 0 < a.value() < 2
                    * pow2(149)
            }
        }),
{
    if samples.len() > 0 {
        let a = root_mean_square(samples);
        let n = of_int(samples.len() as int);
        lemma_square_sum(samples);
        lemma_count(samples.len());
        lemma_over(square_sum(samples), n);
        lemma_root(square_sum(samples).over(n));
        lemma2_to64();
        lemma_pow2_pos(149);
        lemma_pow2_adds(23, 127);
        lemma_pow2_adds(1, 149);
        assert((Single { bits: CLIPPING }).value() == 2 * pow2(149));
        if a.is_finite() {
            order_is_by_value(a, Single { bits: CLIPPING });
            order_is_by_value(Single { bits: 0 }, a);
        }
    }
}

/// A buffer with a sample that is no number has no reading: the level asks for the logarithm
/// of what is no number.
pub proof fn what_is_no_number_has_no_reading(samples: Seq<Single>)
    requires
        0 < samples.len() <= usize::MAX,
        !all_numbers(samples),
    ensures
        level(samples) matches Level::LogOf(a) && a.is_nan(),
{
    lemma_no_number(samples);
}

proof fn lemma_no_number(samples: Seq<Single>)
    requires
        !all_numbers(samples),
    ensures
        square_sum(samples).is_nan(),
    decreases samples.len(),
{
    let i = choose|i: int| 0 <= i < samples.len() && (#[trigger] samples[i]).is_nan();
    let rest = samples.drop_last();
    if i < samples.len() - 1 {
        assert(rest[i] == samples[i]);
        lemma_no_number(rest);
    }
}

/// A sum of numbers from zero on is no smaller than either.
proof fn lemma_plus_is_no_smaller(a: Single, b: Single)
    requires
        a.at_least_zero(),
        b.at_least_zero(),
    ensures
        a.bits <= a.plus(b).bits,
        b.bits <= a.plus(b).bits,
{
    lemma_plus(a, b);
    if a.is_finite() && b.is_finite() {
        let v = a.value();
        let w = b.value();
        rounding_keeps_representable(a.magnitude(), 1);
        rounding_keeps_representable(b.magnitude(), 1);
        lemma_rounded_small(0, 1);
        rounding_is_monotone(units(a.magnitude()) * 1, 1, (v + w) as nat, 1);
        rounding_is_monotone(units(b.magnitude()) * 1, 1, (v + w) as nat, 1);
    }
}

/// The sum of the squares of a buffer is no smaller than the square of each sample.
proof fn lemma_sum_is_no_smaller(samples: Seq<Single>, i: int)
    requires
        all_numbers(samples),
        0 <= i < samples.len(),
    ensures
        samples[i].times(samples[i]).bits <= square_sum(samples).bits <= INFINITY_BITS,
    decreases samples.len(),
{
    let n = samples.len() - 1;
    let rest = samples.drop_last();
    let x = samples[n];
    assert forall|j: int| 0 <= j < rest.len() implies !(#[trigger] rest[j]).is_nan() by {
        assert(rest[j] == samples[j]);
    }
    assert(!x.is_nan());
    lemma_square_sum(rest);
    lemma_square_sum(samples);
    lemma_square(x);
    lemma_plus_is_no_smaller(square_sum(rest), x.times(x));
    if i < n {
        lemma_sum_is_no_smaller(rest, i);
        assert(rest[i] == samples[i]);
    }
}

/// A count of at most 2^64 is held as at most 2^64.
pub(crate) proof fn lemma_largest_count(n: nat)
    requires
        0 < n <= usize::MAX,
    ensures
        0 < units(of_int(n as int).magnitude()) <= pow2(213),
{
    let u = pow2(149);
    let top = 0x5f80_0000nat;
    lemma2_to64();
    lemma_count(n);
    lemma_pow2_pos(149);
    lemma_pow2_adds(23, 190);
    lemma_pow2_adds(64, 149);
    assert(units(top) == pow2(213));
    rounding_keeps_representable(top, 1);
    assert(0 < n * u <= 0x1_0000_0000_0000_0000 * u) by (nonlinear_arith)
        requires
            0 < n <= 0x1_0000_0000_0000_0000,
            u > 0,
    ;
    rounding_is_monotone(n * u, 1, units(top) * 1, 1);
    order_is_by_value(of_int(n as int), Single { bits: 0x5f80_0000 });
    order_is_by_value(Single { bits: 0x5f80_0000 }, of_int(n as int));
    order_is_by_value(Single { bits: 0 }, of_int(n as int));
}

/// Sound is never taken for silence: a buffer of numbers that holds a sample of a magnitude
/// of 2^-40 or more, 240 dB below full scale, is not silent, however long it
/// is and whatever else it holds.
pub proof fn sound_is_not_silence(samples: Seq<Single>, i: int)
    requires
        samples.len() <= usize::MAX,
        all_numbers(samples),
        0 <= i < samples.len(),
        samples[i].magnitude() >= 0x2b80_0000,
    ensures
        level(samples) != Level::Reading(Single { bits: SILENCE_DB }),
{
    let faint = Single { bits: 0x2b80_0000 };
    let square = Single { bits: 0x1780_0000 };
    let least = Single { bits: 0x0000_0010 };
    let u = pow2(149);
    let n = of_int(samples.len() as int);
    let d = units(n.magnitude());
    let sum = square_sum(samples);
    lemma2_to64();
    lemma_pow2_pos(149);
    lemma_count(samples.len());
    lemma_largest_count(samples.len());
    // The square of the faintest sound is 2^-80.
    lemma_pow2_adds(23, 86);
    lemma_pow2_adds(23, 46);
    lemma_pow2_adds(109, 109);
    lemma_pow2_adds(69, 149);
    lemma_pow2_pos(218);
    assert(faint.value() == pow2(109));
    assert(square.value() == pow2(69));
    rounding_keeps_representable(square.magnitude(), u);
    assert(faint.times(faint) == square);
    lemma_square_monotone(faint, samples[i]);
    lemma_sum_is_no_smaller(samples, i);
    // Shared among 2^64 samples, there is something left of it.
    lemma_over_monotone(square, sum, n);
    rounding_keeps_representable(16, d);
    lemma_pow2_adds(4, 214);
    lemma_pow2_adds(213, 1);
    assert(units(16) == 16);
    assert(16 * d <= pow2(218)) by {
        assert(16 * pow2(213) <= pow2(218)) by {
            lemma_pow2_adds(5, 213);
        }
    }
    assert((16 * d) * d <= (units(square.magnitude()) * u) * d) by (nonlinear_arith)
        requires
            16 * d <= units(square.magnitude()) * u,
    ;
    rounding_is_monotone(16 * d, d, units(square.magnitude()) * u, d);
    lemma_over(square, n);
    assert(square.over(n).bits >= 16);
    lemma_root_monotone(least, sum.over(n));
    lemma_root_of_sixteen();
}

/// The root of sixteen units is above zero.
proof fn lemma_root_of_sixteen()
    ensures
        (Single { bits: 0x0000_0010 }).root().bits > 0,
{
    let a = Single { bits: 0x0000_0010 };
    lemma_root_error(a);
    let r = a.root().value();
    if r == 0 {
        let u = pow2(149);
        let x = pow(PARTS - 1, 2);
        lemma_pow2_pos(149);
        assert(r * r == 0) by (nonlinear_arith)
            requires
                r == 0,
        ;
        assert(a.value() == 16);
        lemma_pow_positive(PARTS - 1, 2);
        assert((16 * u) * x > 0) by (nonlinear_arith)
            requires
                u > 0,
                x > 0,
        ;
        assert(pow(PARTS + 1, 2) * 0 == 0)
            by (nonlinear_arith);
    }
    order_is_by_value(Single { bits: 0 }, a.root());
}

/// Sound beyond all bounds is at the top of the scale: a buffer of numbers with an infinite
/// sample, or whose squares add up to no finite sum, clips.
pub proof fn endless_sound_clips(samples: Seq<Single>, i: int)
    requires
        samples.len() <= usize::MAX,
        all_numbers(samples),
        0 <= i < samples.len(),
        samples[i].is_infinite() || square_sum(samples).is_infinite(),
    ensures
        level(samples) == Level::Reading(Single { bits: TOP_DB }),
{
    lemma_square_sum(samples);
    lemma_count(samples.len());
    lemma_sum_is_no_smaller(samples, i);
    assert(square_sum(samples).is_infinite());
}

/// Where logarithms end, so does the scale; and what is no number has no reading.
pub proof fn the_scale_ends_with_the_logarithms(log: Single)
    ensures
        log.is_infinite() && !log.is_negative() ==> reading(log) == (Single { bits: TOP_DB }),
        log.is_infinite() && log.is_negative() ==> reading(log) == (Single { bits: SILENCE_DB }),
        log.is_nan() ==> reading(log).is_nan(),
{
}

} // verus!
