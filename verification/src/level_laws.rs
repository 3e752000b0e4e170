//! What holds of every reading.
use crate::convert::of_int;
use crate::level::level;
use crate::level::reading;
use crate::level::root_mean_square;
use crate::level::square_sum;
use crate::level::Level;
use crate::level::CLIPPING;
use crate::level::DB_PER_DECADE;
use crate::level::FULL_SCALE;
use crate::level::FULL_SCALE_DB;
use crate::level::SILENCE_DB;
use crate::level::TOP_DB;
use crate::positive::lemma_count;
use crate::positive::lemma_over;
use crate::positive::lemma_plus;
use crate::positive::lemma_root;
use crate::positive::lemma_square;
use crate::positive::nearest_single_is_monotone;
use crate::precision::lemma_nearest;
use crate::precision::lemma_nearest_whole;
use crate::precision::lemma_significand;
use crate::precision::lemma_units_at;
use crate::precision::order_is_by_value;
use crate::precision::rounding_is_monotone;
use crate::precision::rounding_keeps_representable;
use crate::root::floor_root;
use crate::root::lemma_floor_root;
use crate::root::lemma_root_place_bounds;
use crate::root::root_place;
use crate::root::rounded_root;
use crate::rounding::last_place;
use crate::rounding::lemma_last_place;
use crate::rounding::lemma_last_place_unique;
use crate::rounding::nearest;
use crate::rounding::rounded;
use crate::rounding::INFINITY_BITS;
use crate::single::lemma_rounded_small;
use crate::single::units;
use crate::single::Single;
use vstd::arithmetic::div_mod::lemma_fundamental_div_mod;
use vstd::arithmetic::div_mod::lemma_fundamental_div_mod_converse;
use vstd::arithmetic::power2::lemma2_to64;
use vstd::arithmetic::power2::lemma2_to64_rest;
use vstd::arithmetic::power2::lemma_pow2_adds;
use vstd::arithmetic::power2::lemma_pow2_pos;
use vstd::arithmetic::power2::lemma_pow2_strictly_increases;
use vstd::arithmetic::power2::lemma_pow2_unfold;
use vstd::arithmetic::power2::pow2;
use vstd::prelude::*;

verus! {

/// Whether no sample is NaN.
pub open spec fn all_numbers(samples: Seq<Single>) -> bool {
    forall|i: int| 0 <= i < samples.len() ==> !(#[trigger] samples[i]).is_nan()
}

/// Whether every sample is zero.
pub open spec fn all_silent(samples: Seq<Single>) -> bool {
    forall|i: int| 0 <= i < samples.len() ==> (#[trigger] samples[i]).is_zero()
}

pub(crate) proof fn lemma_square_sum(samples: Seq<Single>)
    requires
        all_numbers(samples),
    ensures
        square_sum(samples).at_least_zero(),
    decreases samples.len(),
{
    if samples.len() > 0 {
        let rest = samples.drop_last();
        let x = samples.last();
        assert forall|i: int| 0 <= i < rest.len() implies !(#[trigger] rest[i]).is_nan() by {
            assert(rest[i] == samples[i]);
        }
        lemma_square_sum(rest);
        lemma_square(x);
        lemma_plus(square_sum(rest), x.times(x));
    }
}

proof fn lemma_silent_sum(samples: Seq<Single>)
    requires
        all_silent(samples),
    ensures
        square_sum(samples) == (Single { bits: 0 }),
    decreases samples.len(),
{
    if samples.len() > 0 {
        let rest = samples.drop_last();
        let x = samples.last();
        assert forall|i: int| 0 <= i < rest.len() implies (#[trigger] rest[i]).is_zero() by {
            assert(rest[i] == samples[i]);
        }
        lemma_silent_sum(rest);
        assert(x == samples[samples.len() - 1]);
        assert(x.value() == 0);
        let v = x.value();
        assert(v * v == 0) by (nonlinear_arith)
            requires
                v == 0,
        ;
        assert((Single { bits: 0 }).value() == 0);
    }
}

/// A silent buffer reads zero, and so does an empty one.
pub proof fn silence_reads_zero(samples: Seq<Single>)
    requires
        samples.len() <= usize::MAX,
        all_silent(samples),
    ensures
        level(samples) == Level::Reading(Single { bits: SILENCE_DB }),
{
    if samples.len() > 0 {
        let n = of_int(samples.len() as int);
        lemma_silent_sum(samples);
        lemma_count(samples.len());
        let zero = Single { bits: 0 };
        let d = units(n.magnitude());
        order_is_by_value(zero, n);
        assert(d > 0);
        assert(0 * pow2(149) == 0) by (nonlinear_arith);
        lemma_rounded_small(0, d);
        assert(zero.over(n) == zero);
    }
}

/// Every buffer of numbers has a level: a reading at an end of the scale, or one to
/// be had from the logarithm of an amplitude above zero and below clipping.
pub proof fn every_buffer_has_a_level(samples: Seq<Single>)
    requires
        samples.len() <= usize::MAX,
        all_numbers(samples),
    ensures
        match level(samples) {
            Level::Reading(db) => db.bits == SILENCE_DB || db.bits == TOP_DB,
            Level::LogOf(a) => !a.is_nan() && 0 < a.rank() < (Single { bits: CLIPPING }).rank(),
        },
{
    if samples.len() > 0 {
        let n = of_int(samples.len() as int);
        lemma_square_sum(samples);
        lemma_count(samples.len());
        lemma_over(square_sum(samples), n);
        lemma_root(square_sum(samples).over(n));
    }
}

/// A reading stays on the scale from 0 to 120.
pub proof fn a_reading_stays_on_the_scale(log: Single)
    requires
        !log.is_nan(),
    ensures
        !reading(log).is_nan(),
        (Single { bits: SILENCE_DB }).rank() <= reading(log).rank(),
        reading(log).rank() <= (Single { bits: TOP_DB }).rank(),
{
    lemma_unclamped(log);
}

/// No reading is infinite, whatever the logarithm.
pub proof fn no_reading_is_infinite(log: Single)
    ensures
        !reading(log).is_infinite(),
{
    if !log.is_nan() {
        a_reading_stays_on_the_scale(log);
    }
}

/// What a reading is before it is held on the scale.
proof fn lemma_unclamped(log: Single)
    requires
        !log.is_nan(),
    ensures
        ({
            let raw = (Single { bits: DB_PER_DECADE }).fused(log, Single { bits: FULL_SCALE_DB });
            &&& !raw.is_nan()
            &&& log.is_infinite() ==> raw.is_infinite() && raw.is_negative() == log.is_negative()
        }),
{
    let a = (Single { bits: DB_PER_DECADE }).value();
    let c = (Single { bits: FULL_SCALE_DB }).value();
    lemma_pow2_pos(149);
    let n = a * log.value() + c * pow2(149);
    nearest_single_is_monotone(n, n, pow2(149), false, false);
}

/// A larger logarithm reads no lower.
pub proof fn a_larger_logarithm_reads_no_lower(quiet: Single, loud: Single)
    requires
        !quiet.is_nan(),
        !loud.is_nan(),
        quiet.rank() <= loud.rank(),
    ensures
        reading(quiet).rank() <= reading(loud).rank(),
{
    let a = (Single { bits: DB_PER_DECADE }).value();
    let c = (Single { bits: FULL_SCALE_DB }).value();
    let u = pow2(149);
    lemma_pow2_pos(149);
    lemma_unclamped(quiet);
    lemma_unclamped(loud);
    if quiet.is_finite() && loud.is_finite() {
        order_is_by_value(quiet, loud);
        let v = quiet.value();
        let w = loud.value();
        assert(a * v <= a * w) by (nonlinear_arith)
            requires
                a >= 0,
                v <= w,
        ;
        nearest_single_is_monotone(a * v + c * u, a * w + c * u, u, false, false);
    }
}

/// Full scale, whose amplitude has the logarithm zero, reads exactly 100.
pub proof fn full_scale_reads_100(log: Single)
    requires
        log.is_zero(),
    ensures
        reading(log) == (Single { bits: FULL_SCALE_DB }),
{
    let a = (Single { bits: DB_PER_DECADE }).value();
    let c = (Single { bits: FULL_SCALE_DB }).value();
    let u = pow2(149);
    let v = log.value();
    lemma_pow2_pos(149);
    assert(v == 0);
    assert(a * v == 0) by (nonlinear_arith)
        requires
            v == 0,
    ;
    rounding_keeps_representable(FULL_SCALE_DB as nat, u);
    order_is_by_value(Single { bits: 0 }, Single { bits: FULL_SCALE_DB });
    assert(c * u > 0) by (nonlinear_arith)
        requires
            c > 0,
            u > 0,
    ;
}

/// An amplitude of at most one, whose logarithm is not above zero, reads at most 100.
pub proof fn within_full_scale_the_reading_is_at_most_100(log: Single)
    requires
        !log.is_nan(),
        log.rank() <= 0,
    ensures
        reading(log).rank() <= (Single { bits: FULL_SCALE_DB }).rank(),
{
    a_larger_logarithm_reads_no_lower(log, Single { bits: 0 });
    full_scale_reads_100(Single { bits: 0 });
}

/// Whether a sample lies within full scale.
pub open spec fn is_normalised(x: Single) -> bool {
    !x.is_nan() && x.magnitude() <= FULL_SCALE
}

/// Full scale is 2^149 units.
pub(crate) proof fn lemma_full_scale()
    ensures
        units(FULL_SCALE as nat) == pow2(149),
{
    lemma2_to64();
    lemma_pow2_adds(23, 126);
}

/// Sums keep order.
pub(crate) proof fn lemma_plus_monotone(a1: Single, b1: Single, a2: Single, b2: Single)
    requires
        a1.bits <= a2.bits < INFINITY_BITS,
        b1.bits <= b2.bits < INFINITY_BITS,
    ensures
        a1.plus(b1).at_least_zero(),
        a1.plus(b1).bits <= a2.plus(b2).bits,
{
    order_is_by_value(a1, a2);
    order_is_by_value(b1, b2);
    nearest_single_is_monotone(
        a1.value() + b1.value(),
        a2.value() + b2.value(),
        1,
        false,
        false,
    );
}

/// The square of a sample within full scale is too.
proof fn lemma_normalised_square(x: Single)
    requires
        is_normalised(x),
    ensures
        x.times(x).bits <= FULL_SCALE,
{
    let u = pow2(149);
    let v = x.value();
    let m = units(x.magnitude());
    let one = Single { bits: FULL_SCALE };
    lemma_full_scale();
    lemma_pow2_pos(149);
    order_is_by_value(Single { bits: x.magnitude() as u32 }, one);
    assert(m <= u);
    assert(v * v == m * m && m * m <= u * u) by (nonlinear_arith)
        requires
            v == m || v == -m,
            0 <= m <= u,
    ;
    rounding_keeps_representable(FULL_SCALE as nat, u);
    nearest_single_is_monotone(v * v, (u * u) as int, u, false, false);
    assert(u * u > 0) by (nonlinear_arith)
        requires
            u > 0,
    ;
}

/// Adding one to the number nearest to a count does not pass the number nearest to
/// the next count.
proof fn lemma_count_step(i: nat)
    requires
        0 < i < 0xffff_ffff_ffff_ffff,
    ensures
        of_int(i as int).plus(Single { bits: FULL_SCALE }).bits <= of_int(i as int + 1).bits,
{
    let u = pow2(149);
    let n = i * u;
    let f = of_int(i as int);
    let fu = units(f.magnitude());
    let one = Single { bits: FULL_SCALE };
    lemma_pow2_pos(149);
    lemma_full_scale();
    lemma_count(i);
    lemma_count(i + 1);
    assert((i + 1) * u == n + u) by (nonlinear_arith)
        requires
            n == i * u,
    ;
    assert(n > 0) by (nonlinear_arith)
        requires
            n == i * u,
            i > 0,
            u > 0,
    ;
    assert(f.value() + one.value() == fu + u);
    if fu <= n {
        nearest_single_is_monotone((fu + u) as int, (n + u) as int, 1, false, false);
    } else {
        lemma_rounded_up_absorbs(i, fu);
        nearest_single_is_monotone(n as int, (n + u) as int, 1, false, false);
    }
}

/// Where the number nearest to a count lies above it, adding one to that number is
/// lost in rounding.
proof fn lemma_rounded_up_absorbs(i: nat, fu: nat)
    requires
        0 < i < 0xffff_ffff_ffff_ffff,
        fu == units(rounded(i * pow2(149), 1)),
        fu > i * pow2(149),
        rounded(i * pow2(149), 1) < INFINITY_BITS,
    ensures
        rounded(fu + pow2(149), 1) == rounded(i * pow2(149), 1),
{
    let u = pow2(149);
    let n = i * u;
    let k = last_place(n, 1);
    let s = pow2(k);
    let q = nearest(n, 1 * s);
    lemma_pow2_pos(149);
    lemma_pow2_pos(k);
    lemma2_to64();
    lemma_significand(n, 1);
    lemma_last_place(n, 1);
    lemma_units_at(k, q);
    assert(1 * s == s);
    assert(fu == q * s);
    if k <= 149 {
        // The count is a whole number of steps.
        let t = pow2((149 - k) as nat);
        lemma_pow2_adds((149 - k) as nat, k);
        assert(n == (i * t) * s) by (nonlinear_arith)
            requires
                n == i * u,
                u == t * s,
        ;
        lemma_nearest_whole(i * t, s);
        assert(false);
    }
    // The step is twice the amount added, or more.
    let h = pow2((k - 150) as nat);
    lemma_pow2_adds(149, (k - 150) as nat);
    lemma_pow2_unfold(k);
    lemma_pow2_pos((k - 150) as nat);
    assert(s == 2 * (u * h));
    assert(u <= u * h) by (nonlinear_arith)
        requires
            h >= 1,
            u >= 0,
    ;
    let x = fu + u;
    lemma_pow2_adds(24, k);
    lemma_pow2_adds(23, k);
    if q < 0x100_0000 {
        assert(x < 0x100_0000 * s) by (nonlinear_arith)
            requires
                x == q * s + u,
                q + 1 <= 0x100_0000,
                u < s,
        ;
        assert(x >= 0x80_0000 * s) by (nonlinear_arith)
            requires
                x >= q * s,
                q >= 0x80_0000,
                s > 0,
        ;
        lemma_last_place_unique(x, 1, k);
        assert(q * s + u == s * q + u) by (nonlinear_arith);
        lemma_fundamental_div_mod_converse(x as int, s as int, q as int, u as int);
        if 2 * u == s {
            // The count lies in the middle between two numbers, so it went to an
            // even significand.
            lemma_nearest(n, s);
            assert((2 * q - 1) * s == 2 * (q * s) - s) by (nonlinear_arith);
            assert(fu - n == (q * 2 - i) * u) by (nonlinear_arith)
                requires
                    fu == q * s,
                    s == 2 * u,
                    n == i * u,
            ;
            let gap = q * 2 - i;
            assert(gap == 1) by (nonlinear_arith)
                requires
                    gap * u > 0,
                    2 * (gap * u) <= 2 * u,
                    u > 0,
            ;
            assert(2 * n == (2 * q - 1) * s);
        }
    } else {
        let w = pow2(k + 1);
        lemma_pow2_unfold(k + 1);
        lemma_pow2_adds(24, k + 1);
        lemma_pow2_adds(23, k + 1);
        lemma_pow2_pos(k + 1);
        assert(x == 0x80_0000 * w + u) by (nonlinear_arith)
            requires
                x == q * s + u,
                q == 0x100_0000,
                w == 2 * s,
        ;
        assert(0x80_0000 * w <= x < 0x100_0000 * w);
        lemma_last_place_unique(x, 1, k + 1);
        assert(1 * w == w);
        lemma_fundamental_div_mod_converse(x as int, w as int, 0x80_0000, u as int);
    }
}

proof fn lemma_normalised_sum(samples: Seq<Single>)
    requires
        samples.len() <= usize::MAX,
        forall|i: int| 0 <= i < samples.len() ==> is_normalised(#[trigger] samples[i]),
    ensures
        square_sum(samples).bits <= of_int(samples.len() as int).bits < INFINITY_BITS,
    decreases samples.len(),
{
    let n = samples.len();
    if n > 0 {
        let rest = samples.drop_last();
        let x = samples.last();
        let one = Single { bits: FULL_SCALE };
        assert forall|i: int| 0 <= i < rest.len() implies is_normalised(#[trigger] rest[i]) by {
            assert(rest[i] == samples[i]);
        }
        assert(is_normalised(samples[n - 1]));
        lemma_normalised_sum(rest);
        lemma_normalised_square(x);
        lemma_count(n);
        lemma_plus_monotone(
            square_sum(rest),
            x.times(x),
            of_int(rest.len() as int),
            one,
        );
        if n > 1 {
            lemma_count_step((n - 1) as nat);
        } else {
            assert(0 * pow2(149) == 0 && 1 * pow2(149) == pow2(149)) by (nonlinear_arith);
            lemma_full_scale();
            assert(of_int(0) == (Single { bits: 0 }));
        }
    } else {
        assert(0 * pow2(149) == 0) by (nonlinear_arith);
    }
}

/// The root of a number up to one is up to one.
proof fn lemma_root_of_fraction(a: Single)
    requires
        a.bits <= FULL_SCALE,
    ensures
        a.root().bits <= FULL_SCALE,
{
    if a.bits > 0 {
        let one = Single { bits: FULL_SCALE };
        let u = pow2(149);
        let m = units(a.magnitude());
        let n = m * u;
        lemma_full_scale();
        lemma_pow2_pos(149);
        order_is_by_value(a, one);
        lemma_pow2_adds(149, 149);
        assert(n <= pow2(298)) by (nonlinear_arith)
            requires
                n == m * u,
                m <= u,
                pow2(298) == u * u,
        ;
        lemma_rounded_root_at_most_one(n);
    }
}

proof fn lemma_rounded_root_at_most_one(n: nat)
    requires
        n <= pow2(298),
    ensures
        rounded_root(n) <= FULL_SCALE,
{
    let k = root_place(n);
    let g = pow2(2 * k);
    let f = 4 * n / g;
    let s = floor_root(f);
    lemma2_to64();
    lemma2_to64_rest();
    lemma_root_place_bounds(n);
    if k > 126 {
        lemma_pow2_strictly_increases(298, (46 + 2 * k) as nat);
    }
    lemma_pow2_pos(2 * k);
    lemma_pow2_adds(50, 2 * k);
    lemma_pow2_adds(2, 48 + 2 * k);
    lemma_fundamental_div_mod((4 * n) as int, g as int);
    assert(f < 0x4_0000_0000_0000) by (nonlinear_arith)
        requires
            g * f <= 4 * n,
            4 * n < 0x4_0000_0000_0000 * g,
            g > 0,
    ;
    lemma_floor_root(f);
    assert(s < 0x200_0000) by (nonlinear_arith)
        requires
            s * s <= f,
            f < 0x4_0000_0000_0000,
    ;
    if k == 126 {
        assert(n == pow2(298));
        lemma_pow2_adds(48, 252);
        lemma_pow2_adds(2, 298);
        lemma_fundamental_div_mod_converse((4 * n) as int, g as int, 0x1_0000_0000_0000, 0);
        assert(s < 0x100_0001) by (nonlinear_arith)
            requires
                s * s <= f,
                f == 0x1_0000_0000_0000,
        ;
    }
}

/// Whether a level is silence, or that of an amplitude above zero and up to one.
pub open spec fn within_full_scale(level: Level) -> bool {
    match level {
        Level::Reading(db) => db.bits == SILENCE_DB,
        Level::LogOf(a) => 0 < a.bits <= FULL_SCALE,
    }
}

/// A buffer within full scale never reads the top of the scale: it is silent, or
/// its reading is that of the logarithm of its amplitude.
pub proof fn a_buffer_within_full_scale_does_not_clip(samples: Seq<Single>)
    requires
        samples.len() <= usize::MAX,
        forall|i: int| 0 <= i < samples.len() ==> is_normalised(#[trigger] samples[i]),
    ensures
        level(samples) != Level::Reading(Single { bits: TOP_DB }),
        within_full_scale(level(samples)),
        square_sum(samples).is_finite(),
        samples.len() > 0 ==> root_mean_square(samples).bits <= FULL_SCALE,
{
    if samples.len() > 0 {
        let n = of_int(samples.len() as int);
        let t = square_sum(samples);
        let u = pow2(149);
        let d = units(n.magnitude());
        lemma_normalised_sum(samples);
        lemma_count(samples.len());
        lemma_full_scale();
        order_is_by_value(t, n);
        order_is_by_value(Single { bits: 0 }, n);
        rounding_keeps_representable(FULL_SCALE as nat, d);
        assert((units(t.magnitude()) * u) * d <= (u * d) * d) by (nonlinear_arith)
            requires
                units(t.magnitude()) <= d,
        ;
        rounding_is_monotone(units(t.magnitude()) * u, d, u * d, d);
        lemma_root_of_fraction(t.over(n));
    }
}

} // verus!
