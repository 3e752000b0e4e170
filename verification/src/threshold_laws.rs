//! What the threshold of a calibration is, in values.
use crate::accuracy::lemma_close_scaled;
use crate::accuracy::lemma_close_through;
use crate::accuracy::lemma_exactly;
use crate::accuracy::lemma_no_more_divided;
use crate::accuracy::lemma_one_step;
use crate::accuracy::lemma_rounding_error;
use crate::accuracy::no_more;
use crate::accuracy::PARTS;
use crate::amplitude_laws::lemma_largest_count;
use crate::arithmetic_laws::apart;
use crate::arithmetic_laws::quotients_are_rounded_to_nearest;
use crate::arithmetic_laws::rounds;
use crate::arithmetic_laws::the_whole_part_is_not_above;
use crate::calibration::from_quiet_to_loud;
use crate::calibration::is_speech;
use crate::calibration::lemma_order_is_total;
use crate::calibration::mean;
use crate::calibration::no_louder;
use crate::calibration::percentile_index;
use crate::calibration::speech;
use crate::calibration::standard_deviation;
use crate::calibration::sum;
use crate::calibration::threshold_stats;
use crate::calibration::CalibMode;
use crate::calibration::CALIBRATION_FALLBACK_DB;
use crate::calibration::DEVIATIONS;
use crate::calibration::LEVEL_SPEECH_DB;
use crate::calibration::MAX_THRESHOLD_DB;
use crate::calibration::MIN_THRESHOLD_DB;
use crate::calibration::PERCENTILE;
use crate::calibration::SILENCE_FLOOR_DB;
use crate::calibration_laws::all_bounded;
use crate::calibration_laws::exact_sum;
use crate::calibration_laws::lemma_figures;
use crate::calibration_laws::lemma_sorted;
use crate::calibration_laws::lemma_speech;
use crate::calibration_laws::lemma_sum;
use crate::calibration_laws::level_speech_gives_one_of_its_readings;
use crate::calibration_laws::the_percentile_is_the_ninetieth;
use crate::convert::of_int;
use crate::figure_laws::all_positive;
use crate::positive::lemma_count;
use crate::positive::lemma_plus;
use crate::precision::lemma_representable;
use crate::precision::lemma_small_int;
use crate::precision::order_is_by_value;
use crate::precision::rounding_overflows_past_the_middle;
use crate::rounding::rounded;
use crate::rounding::INFINITY_BITS;
use crate::sample_laws::the_patterns_are_those_of_their_numbers;
use crate::single::lemma_rounded_small;
use crate::single::units;
use crate::single::Single;
use vstd::arithmetic::div_mod::lemma_add_mod_noop;
use vstd::arithmetic::div_mod::lemma_fundamental_div_mod;
use vstd::arithmetic::div_mod::lemma_small_mod;
use vstd::arithmetic::power::lemma_pow_positive;
use vstd::arithmetic::power::pow;
use vstd::arithmetic::power2::lemma2_to64;
use vstd::arithmetic::power2::lemma_pow2_adds;
use vstd::arithmetic::power2::lemma_pow2_pos;
use vstd::arithmetic::power2::lemma_pow2_strictly_increases;
use vstd::arithmetic::power2::pow2;
use vstd::prelude::*;
use vstd::seq_lib::commutative_foldr;
use vstd::seq_lib::group_to_multiset_ensures;
use vstd::seq_lib::lemma_fold_right_permutation;

verus! {

/// A whole number held within a range.
pub open spec fn held(x: int, low: int, high: int) -> int {
    if x < low {
        low
    } else if x > high {
        high
    } else {
        x
    }
}

/// A number of decibels in units of 2^-149.
pub open spec fn decibels(x: int) -> int {
    x * pow2(149)
}

proof fn lemma_value_of(bits: u32, v: nat)
    requires
        of_int(v as int) == (Single { bits }),
        0 < v < 0x100_0000,
        bits < INFINITY_BITS,
    ensures
        (Single { bits }).value() == v * pow2(149),
{
    let u = pow2(149);
    lemma_small_int(v);
    lemma_pow2_pos(149);
    assert(v * u > 0) by (nonlinear_arith)
        requires
            v > 0,
            u > 0,
    ;
}

/// The values of the patterns of the calibration.
proof fn lemma_values()
    ensures
        (Single { bits: MIN_THRESHOLD_DB }).value() == decibels(40),
        (Single { bits: MAX_THRESHOLD_DB }).value() == decibels(95),
        (Single { bits: CALIBRATION_FALLBACK_DB }).value() == decibels(60),
        (Single { bits: SILENCE_FLOOR_DB }).value() == decibels(10),
        (Single { bits: LEVEL_SPEECH_DB }).value() == decibels(1),
        2 * (Single { bits: DEVIATIONS }).value() == decibels(3),
{
    the_patterns_are_those_of_their_numbers();
    lemma_value_of(MIN_THRESHOLD_DB, 40);
    lemma_value_of(MAX_THRESHOLD_DB, 95);
    lemma_value_of(CALIBRATION_FALLBACK_DB, 60);
    lemma_value_of(SILENCE_FLOOR_DB, 10);
    lemma_value_of(LEVEL_SPEECH_DB, 1);
}

/// What it is in values to be held within 40 and 95 dB.
proof fn lemma_held(raw: Single)
    requires
        raw.at_least_zero(),
    ensures
        ({
            let t = raw.clamped(Single { bits: MIN_THRESHOLD_DB }, Single { bits: MAX_THRESHOLD_DB });
            &&& t.is_finite()
            &&& t.at_least_zero()
            &&& raw.is_finite() ==> t.value() == held(raw.value(), decibels(40), decibels(95))
            &&& raw.is_infinite() ==> t.value() == decibels(95)
        }),
{
    let low = Single { bits: MIN_THRESHOLD_DB };
    let high = Single { bits: MAX_THRESHOLD_DB };
    lemma_values();
    if raw.is_finite() {
        order_is_by_value(raw, low);
        order_is_by_value(high, raw);
    }
}

/// Three halves of a finite number from zero on, in values.
proof fn lemma_three_halves(x: Single)
    requires
        x.at_least_zero(),
        x.is_finite(),
    ensures
        ({
            let b = (Single { bits: DEVIATIONS }).times(x);
            let c = PARTS as int;
            &&& b.at_least_zero()
            &&& b.is_finite() ==> 2 * (c * b.value()) <= (c + 1) * (3 * x.value()) + c
            &&& b.is_finite() ==> (c - 1) * (3 * x.value()) <= 2 * (c * b.value()) + c
            &&& b.is_infinite() ==> 3 * x.value() >= decibels(200)
        }),
{
    let u = pow2(149);
    let f = (Single { bits: DEVIATIONS }).value();
    let v = x.value();
    let b = (Single { bits: DEVIATIONS }).times(x);
    let n = f * v;
    lemma_values();
    lemma_pow2_pos(149);
    assert(n >= 0 && 2 * n == (3 * v) * u) by (nonlinear_arith)
        requires
            n == f * v,
            2 * f == 3 * u,
            v >= 0,
            u > 0,
    ;
    lemma_rounded_small(0, u);
    rounding_overflows_past_the_middle(n as nat, u);
    assert(b.magnitude() == rounded(n as nat, u));
    if b.is_finite() {
        let c = PARTS as int;
        let w = b.value();
        lemma_rounding_error(n as nat, u);
        assert((2 * (c * w)) * u <= ((c + 1) * (3 * v) + c) * u) by (nonlinear_arith)
            requires
                c * (w * u) <= (c + 1) * n + 0x80_0000 * u,
                2 * n == (3 * v) * u,
                c == 0x100_0000,
        ;
        assert(((c - 1) * (3 * v)) * u <= (2 * (c * w) + c) * u) by (nonlinear_arith)
            requires
                (c - 1) * n <= c * (w * u) + 0x80_0000 * u,
                2 * n == (3 * v) * u,
                c == 0x100_0000,
        ;
        assert(2 * (c * w) <= (c + 1) * (3 * v) + c && (c - 1) * (3 * v) <= 2 * (c * w) + c)
            by (nonlinear_arith)
            requires
                (2 * (c * w)) * u <= ((c + 1) * (3 * v) + c) * u,
                ((c - 1) * (3 * v)) * u <= (2 * (c * w) + c) * u,
                u > 0,
        ;
    } else {
        let k = 0x1ff_ffff * pow2(253);
        lemma_beyond_all();
        assert(3 * v >= k) by (nonlinear_arith)
            requires
                2 * n >= u * k,
                2 * n == (3 * v) * u,
                u > 0,
        ;
    }
}

/// Where numbers become infinite is beyond all loudness.
proof fn lemma_beyond_all()
    ensures
        0x1ff_ffff * pow2(253) >= 1000 * pow2(149),
{
    lemma_pow2_pos(149);
    lemma_pow2_strictly_increases(149, 253);
}

/// In the everyday mode the threshold of speech that varies by a decibel or more is the
/// reported mean plus three halves of the reported deviation, held within 40 and 95 dB, up
/// to 2^-16 dB. It is 95 dB where these figures are not finite.
pub proof fn the_threshold_is_the_mean_and_three_halves_of_the_deviation(samples: Seq<Single>)
    requires
        all_bounded(samples),
        10 <= speech(samples).len() <= usize::MAX,
        ({
            let stats = threshold_stats(samples, CalibMode::Normal);
            stats.std_dev.is_finite() ==> stats.std_dev.value() >= decibels(1)
        }),
    ensures
        ({
            let stats = threshold_stats(samples, CalibMode::Normal);
            let twice = 2 * stats.mean.value() + 3 * stats.std_dev.value();
            &&& stats.threshold.is_finite()
            &&& stats.mean.is_finite() && stats.std_dev.is_finite() ==> apart(
                2 * stats.threshold.value(),
                held(twice, decibels(80), decibels(190)),
            ) <= pow2(134)
            &&& !stats.mean.is_finite() || !stats.std_dev.is_finite() ==> stats.threshold.value()
                == decibels(95)
        }),
{
    let s = speech(samples);
    let stats = threshold_stats(samples, CalibMode::Normal);
    let std = standard_deviation(s);
    let b = (Single { bits: DEVIATIONS }).times(std);
    let raw = mean(s).plus(b);
    let u = pow2(149);
    lemma_speech(samples);
    lemma_figures(s);
    lemma_values();
    lemma_pow2_pos(149);
    assert(!std.below(Single { bits: LEVEL_SPEECH_DB })) by {
        if std.is_finite() {
            order_is_by_value(std, Single { bits: LEVEL_SPEECH_DB });
        }
    }
    assert(b.at_least_zero()) by {
        if std.is_finite() {
            lemma_three_halves(std);
        }
    }
    lemma_plus(mean(s), b);
    lemma_held(raw);
    if stats.mean.is_finite() && stats.std_dev.is_finite() {
        let m = mean(s).value();
        let v = std.value();
        let c = PARTS as int;
        let e = pow2(134) as int;
        let y = 2 * m + 3 * v;
        lemma_three_halves(std);
        lemma2_to64();
        lemma_pow2_adds(15, 134);
        lemma_pow2_pos(134);
        lemma_beyond_all();
        lemma_pow2_strictly_increases(64, 134);
        if b.is_finite() {
            let w = b.value();
            lemma_rounded_small(0, 1);
            rounding_overflows_past_the_middle((m + w) as nat, 1);
            assert(raw.magnitude() == rounded((m + w) as nat, 1));
            if raw.is_finite() {
                lemma_rounding_error((m + w) as nat, 1);
                let t = raw.value();
                assert(c * t <= (c + 1) * (m + w) && (c - 1) * (m + w) <= c * t);
                lemma_near(m, v, w, t, u as int, e);
            } else {
                assert(2 * (m + w) >= 1000 * u);
                assert(y >= 190 * u);
            }
        }
    }
}

/// Two steps of rounding away from three halves.
proof fn lemma_near(m: int, v: int, w: int, t: int, u: int, e: int)
    requires
        m >= 0,
        v >= 0,
        w >= 0,
        e > 0x1_0000_0000_0000_0000,
        u == 0x8000 * e,
        0x100_0000 * t <= 0x100_0001 * (m + w),
        0xff_ffff * (m + w) <= 0x100_0000 * t,
        2 * (0x100_0000 * w) <= 0x100_0001 * (3 * v) + 0x100_0000,
        0xff_ffff * (3 * v) <= 2 * (0x100_0000 * w) + 0x100_0000,
    ensures
        apart(2 * held(t, 40 * u, 95 * u), held(2 * m + 3 * v, 80 * u, 190 * u)) <= e,
{
    let y = 2 * m + 3 * v;
    if y <= 192 * u {
        assert(2 * t - y <= e);
        assert(y - 2 * t <= e);
    } else {
        assert(2 * t >= 190 * u);
    }
}

/// In the limit mode the threshold is the reported mean, held within 40 and 95 dB.
pub proof fn the_threshold_of_the_limit_is_the_mean(samples: Seq<Single>)
    requires
        all_bounded(samples),
        10 <= speech(samples).len() <= usize::MAX,
    ensures
        ({
            let stats = threshold_stats(samples, CalibMode::Limit);
            &&& stats.threshold.is_finite()
            &&& stats.mean.is_finite() ==> stats.threshold.value() == held(
                stats.mean.value(),
                decibels(40),
                decibels(95),
            )
            &&& !stats.mean.is_finite() ==> stats.threshold.value() == decibels(95)
        }),
{
    lemma_speech(samples);
    lemma_figures(speech(samples));
    lemma_held(mean(speech(samples)));
}

/// With fewer than ten readings of speech the threshold is 60 dB, and the figures are zero.
pub proof fn without_speech_there_are_no_figures(samples: Seq<Single>, mode: CalibMode)
    requires
        speech(samples).len() < 10,
    ensures
        ({
            let stats = threshold_stats(samples, mode);
            &&& stats.threshold.is_finite()
            &&& stats.threshold.value() == decibels(60)
            &&& stats.mean == (Single { bits: 0 })
            &&& stats.std_dev == (Single { bits: 0 })
            &&& stats.min == (Single { bits: 0 })
            &&& stats.max == (Single { bits: 0 })
        }),
{
    lemma_values();
}

/// The figures other than the threshold do not depend on the mode.
pub proof fn the_mode_decides_on_the_threshold_alone(samples: Seq<Single>)
    ensures
        ({
            let a = threshold_stats(samples, CalibMode::Normal);
            let b = threshold_stats(samples, CalibMode::Limit);
            a.mean == b.mean && a.std_dev == b.std_dev && a.min == b.min && a.max == b.max
        }),
{
}

/// Whether a reading is louder than 10 dB.
pub open spec fn is_louder_than_silence(x: Single) -> bool {
    !x.is_negative() && (x.is_infinite() || (x.is_finite() && x.value() > decibels(10)))
}

/// Speech is every reading louder than 10 dB, as often as it occurs, and no other; and the
/// speech of two series after each other is that of the one and then that of the other.
pub proof fn speech_is_all_that_is_louder_than_silence(
    samples: Seq<Single>,
    more: Seq<Single>,
    x: Single,
)
    ensures
        speech(samples).to_multiset().count(x) == (if is_louder_than_silence(x) {
            samples.to_multiset().count(x)
        } else {
            0
        }),
        speech(samples + more) == speech(samples) + speech(more),
        speech(seq![x]) == (if is_louder_than_silence(x) {
            seq![x]
        } else {
            Seq::empty()
        }),
{
    let pred = |s: Single| is_speech(s);
    lemma_speech_in_values(x);
    lemma_speech_count(samples, x);
    Seq::filter_distributes_over_add(samples, more, pred);
    let none = Seq::<Single>::empty();
    assert(none.filter(pred) =~= none) by {
        reveal(Seq::filter);
    }
    none.lemma_filter_push(x, pred);
    assert(none.push(x) =~= seq![x]);
}

proof fn lemma_speech_in_values(x: Single)
    ensures
        is_speech(x) <==> is_louder_than_silence(x),
{
    lemma_values();
    lemma_pow2_pos(149);
    if x.is_finite() {
        order_is_by_value(Single { bits: SILENCE_FLOOR_DB }, x);
    }
}

proof fn lemma_speech_count(samples: Seq<Single>, x: Single)
    ensures
        speech(samples).to_multiset().count(x) == (if is_speech(x) {
            samples.to_multiset().count(x)
        } else {
            0
        }),
    decreases samples.len(),
{
    broadcast use group_to_multiset_ensures;

    let pred = |s: Single| is_speech(s);
    if samples.len() > 0 {
        let rest = samples.drop_last();
        lemma_speech_count(rest, x);
        rest.lemma_filter_push(samples.last(), pred);
        assert(samples =~= rest.push(samples.last()));
        assert(rest.push(samples.last()).to_multiset() =~= rest.to_multiset().insert(
            samples.last(),
        ));
        if is_speech(samples.last()) {
            assert(speech(samples) == speech(rest).push(samples.last()));
            assert(speech(rest).push(samples.last()).to_multiset() =~= speech(
                rest,
            ).to_multiset().insert(samples.last()));
        }
    } else {
        reveal(Seq::filter);
        assert(speech(samples) =~= samples);
        assert(samples =~= Seq::empty());
    }
}

/// How many readings have a property.
pub open spec fn how_many(s: Seq<Single>, has: spec_fn(Single) -> bool) -> nat
    decreases s.len(),
{
    if s.len() == 0 {
        0
    } else {
        how_many(s.drop_last(), has) + if has(s.last()) {
            1nat
        } else {
            0
        }
    }
}

proof fn lemma_how_many_fold(s: Seq<Single>, has: spec_fn(Single) -> bool, t: nat)
    ensures
        s.fold_right(
            |x: Single, t: nat|
                if has(x) {
                    t + 1
                } else {
                    t
                },
            t,
        ) == t + how_many(s, has),
    decreases s.len(),
{
    if s.len() > 0 {
        let more = if has(s.last()) {
            t + 1
        } else {
            t
        };
        lemma_how_many_fold(s.drop_last(), has, more);
    }
}

proof fn lemma_how_many_in_any_order(
    s: Seq<Single>,
    t: Seq<Single>,
    has: spec_fn(Single) -> bool,
)
    requires
        s.to_multiset() == t.to_multiset(),
    ensures
        how_many(s, has) == how_many(t, has),
{
    let f = |x: Single, t: nat|
        if has(x) {
            t + 1
        } else {
            t
        };
    assert(commutative_foldr(f));
    lemma_fold_right_permutation(s, t, f, 0);
    lemma_how_many_fold(s, has, 0);
    lemma_how_many_fold(t, has, 0);
}

/// Of readings of which none from some place on, or before some place, has a property.
proof fn lemma_how_many_at_most(
    s: Seq<Single>,
    has: spec_fn(Single) -> bool,
    from: int,
    to: int,
)
    requires
        0 <= from <= to <= s.len(),
        forall|i: int| 0 <= i < s.len() && has(#[trigger] s[i]) ==> from <= i < to,
    ensures
        how_many(s, has) <= to - from,
    decreases s.len(),
{
    if s.len() > 0 {
        let rest = s.drop_last();
        let n = s.len() - 1;
        let end = if to > n {
            n
        } else {
            to
        };
        let begin = if from > end {
            end
        } else {
            from
        };
        assert forall|i: int| 0 <= i < rest.len() && has(#[trigger] rest[i]) implies begin <= i
            < end by {
            assert(rest[i] == s[i]);
        }
        lemma_how_many_at_most(rest, has, begin, end);
        assert(s.last() == s[n]);
    }
}

/// The place of the percentile is nine tenths of the number of readings, however many they
/// are, up to three steps of rounding and the next place; and it is a place.
pub proof fn the_percentile_is_about_the_ninetieth(n: nat)
    requires
        0 < n <= usize::MAX,
    ensures
        0 <= percentile_index(n) < n,
        no_more(10 * percentile_index(n), 9 * n as int, 3, 1),
        no_more(9 * n as int, 10 * percentile_index(n), 3, 20),
{
    let u = pow2(149) as int;
    let g = pow2(125) as int;
    let m = n as int;
    let a = of_int(m);
    let f = Single { bits: PERCENTILE };
    let product = a.times(f);
    let v = a.value();
    let w = f.value();
    let x = v * w;
    let count = m * u;
    lemma2_to64();
    lemma_pow2_pos(149);
    lemma_pow2_pos(125);
    lemma_pow2_adds(24, 125);
    lemma_count(n);
    assert(count > 0) by (nonlinear_arith)
        requires
            count == m * u,
            m > 0,
            u > 0,
    ;
    lemma_rounding_error(count as nat, 1);
    assert(v == units(rounded(count as nat, 1)));
    assert(w == 15_099_494 * g);
    assert(u == 0x100_0000 * g);
    // The count, the share and the product are each rounded once.
    lemma_close_scaled(v, count, 1, 0, w);
    lemma_one_step(10 * w, 9 * u, 0);
    lemma_one_step(9 * u, 10 * w, 0);
    lemma_close_scaled(10 * w, 9 * u, 1, 0, count);
    assert(0 * w == 0 && 0 * count == 0) by (nonlinear_arith);
    lemma_close_scaled(x, count * w, 1, 0, 10);
    assert((10 * w) * count == (count * w) * 10) by (nonlinear_arith);
    lemma_close_through(x * 10, (count * w) * 10, (9 * u) * count, 1, 1, 0, 0);
    order_is_by_value(Single { bits: 0 }, a);
    assert(x > 0) by (nonlinear_arith)
        requires
            x == v * w,
            v > 0,
            w > 0,
    ;
    lemma_product_is_finite(v, w, n);
    rounding_overflows_past_the_middle(x as nat, u as nat);
    assert(product.magnitude() == rounded(x as nat, u as nat));
    lemma_rounding_error(x as nat, u as nat);
    let r = product.value();
    lemma_close_scaled(r * u, x, 1, u, 10);
    lemma_close_through((r * u) * 10, x * 10, (9 * u) * count, 1, 2, u * 10, 0);
    assert((r * u) * 10 == (10 * r) * u && (9 * u) * count == ((9 * m) * u) * u && u * 10 == 10
        * u) by (nonlinear_arith)
        requires
            count == m * u,
    ;
    lemma_no_more_divided(10 * r, (9 * m) * u, 3, 10, u);
    lemma_no_more_divided((9 * m) * u, 10 * r, 3, 10, u);
    lemma_pow2_strictly_increases(64, 149);
    lemma_whole_place(m, product, u);
}

/// A product with a share of less than one is finite.
proof fn lemma_product_is_finite(v: int, w: int, n: nat)
    requires
        0 < n <= usize::MAX,
        v == of_int(n as int).value(),
        w == 15_099_494 * pow2(125),
    ensures
        2 * (v * w) < pow2(149) * (0x1ff_ffff * pow2(253)),
{
    let u = pow2(149);
    let k = pow2(253);
    lemma2_to64();
    lemma_pow2_pos(149);
    lemma_pow2_adds(24, 125);
    lemma_largest_count(n);
    lemma_count(n);
    lemma_pow2_strictly_increases(213, 253);
    assert(2 * (v * w) < u * (0x1ff_ffff * k)) by (nonlinear_arith)
        requires
            0 < v < k,
            0 < w < u,
    ;
}

/// What the whole part of nine tenths is as a place among so many.
proof fn lemma_whole_place(n: int, product: Single, u: int)
    requires
        0 < n <= usize::MAX,
        u == pow2(149),
        u > 0x1_0000,
        product.is_finite(),
        product.at_least_zero(),
        no_more(10 * product.value(), (9 * n) * u, 3, 10),
        no_more((9 * n) * u, 10 * product.value(), 3, 10),
    ensures
        ({
            let i = product.whole_part() as int;
            let place = if i < n - 1 {
                i
            } else {
                n - 1
            };
            &&& no_more(10 * place, 9 * n, 3, 1)
            &&& no_more(9 * n, 10 * place, 3, 20)
        }),
{
    let i = product.whole_part() as int;
    let r = product.value();
    let place = if i < n - 1 {
        i
    } else {
        n - 1
    };
    let x = pow(PARTS - 1, 3);
    let y = pow(PARTS + 1, 3);
    the_whole_part_is_not_above(product);
    lemma_cubes();
    assert(u == pow2(149));
    // At least.
    assert(place * u <= r) by {
        assert(i * u <= r) by (nonlinear_arith)
            requires
                i < usize::MAX ==> i * u <= r,
                i == usize::MAX ==> r >= i * u,
                i <= usize::MAX,
        ;
        assert(place * u <= i * u) by (nonlinear_arith)
            requires
                place <= i,
                u > 0,
        ;
    }
    assert((10 * place) * x <= y * (9 * n + 1)) by {
        assert((10 * (place * u)) * x <= (10 * r) * x) by (nonlinear_arith)
            requires
                place * u <= r,
                x > 0,
        ;
        assert(((10 * place) * x) * u == (10 * (place * u)) * x) by (nonlinear_arith);
        assert(y * ((9 * n) * u + 10) <= (y * (9 * n + 1)) * u) by (nonlinear_arith)
            requires
                y > 0,
                u >= 10,
        ;
        assert((10 * place) * x <= y * (9 * n + 1)) by (nonlinear_arith)
            requires
                ((10 * place) * x) * u <= (y * (9 * n + 1)) * u,
                u > 0,
        ;
    }
    // At most.
    if i < n - 1 {
        assert(r < (i + 1) * u);
        assert((9 * n) * x <= y * (10 * place + 20)) by {
            assert(y * (10 * r + 10) <= (y * (10 * place + 20)) * u) by (nonlinear_arith)
                requires
                    y > 0,
                    r <= (place + 1) * u,
                    u >= 10,
            ;
            assert(((9 * n) * u) * x == ((9 * n) * x) * u) by (nonlinear_arith);
            assert((9 * n) * x <= y * (10 * place + 20)) by (nonlinear_arith)
                requires
                    ((9 * n) * x) * u <= (y * (10 * place + 20)) * u,
                    u > 0,
            ;
        }
    } else {
        assert((9 * n) * x <= y * (10 * (n - 1) + 20)) by (nonlinear_arith)
            requires
                0 < x <= y,
                n > 0,
        ;
    }
}

proof fn lemma_cubes()
    ensures
        0 < pow(PARTS - 1, 3) <= pow(PARTS + 1, 3),
{
    lemma_exactly(1, 1, 3);
    lemma_pow_positive(PARTS - 1, 3);
}

/// In the everyday mode the threshold of speech that varies by less than a decibel is its
/// ninetieth percentile, held within 40 and 95 dB: one of the readings, with at most nine
/// tenths of them below it and at most the rest, but for itself, above it. Of more than a
/// million readings nine tenths are taken up to rounding.
pub proof fn the_threshold_of_level_speech_is_its_ninetieth_percentile(samples: Seq<Single>)
    requires
        all_bounded(samples),
        10 <= speech(samples).len() <= usize::MAX,
        threshold_stats(samples, CalibMode::Normal).std_dev.is_finite(),
        threshold_stats(samples, CalibMode::Normal).std_dev.value() < decibels(1),
    ensures
        ({
            let s = speech(samples);
            let n = s.len();
            let threshold = threshold_stats(samples, CalibMode::Normal).threshold;
            let below = percentile_index(n);
            &&& threshold.is_finite()
            &&& 0 <= below < n
            &&& n <= 1_000_000 ==> below == 9 * n / 10
            &&& no_more(10 * below, 9 * n as int, 3, 1)
            &&& no_more(9 * n as int, 10 * below, 3, 20)
            &&& exists|r: Single| #[trigger]
                s.contains(r) && threshold.value() == held(r.value(), decibels(40), decibels(95))
                    && how_many(s, |x: Single| x.value() < r.value()) <= below && how_many(
                    s,
                    |x: Single| x.value() > r.value(),
                ) <= n - 1 - below
        }),
{
    let s = speech(samples);
    let n = s.len();
    let t = from_quiet_to_loud(s);
    let i = percentile_index(n);
    let r = t[i];
    let leq = |a: Single, b: Single| no_louder(a, b);
    lemma_speech(samples);
    lemma_figures(s);
    lemma_values();
    lemma_sorted(s);
    the_percentile_is_about_the_ninetieth(n);
    if n <= 1_000_000 {
        the_percentile_is_the_ninetieth(n);
    }
    order_is_by_value(standard_deviation(s), Single { bits: LEVEL_SPEECH_DB });
    level_speech_gives_one_of_its_readings(s);
    assert(s.contains(r));
    let j = choose|j: int| 0 <= j < s.len() && s[j] == r;
    assert(s[j].is_finite() && s[j].at_least_zero());
    lemma_held(r);
    lemma_order_is_total();
    s.lemma_sort_by_ensures(leq);
    let quieter = |x: Single| x.value() < r.value();
    let louder = |x: Single| x.value() > r.value();
    assert forall|k: int| 0 <= k < t.len() implies (quieter(#[trigger] t[k]) ==> k < i) && (louder(
        t[k],
    ) ==> k > i) by {
        assert(t.contains(t[k]));
        let l = choose|l: int| 0 <= l < s.len() && s[l] == t[k];
        assert(s[l].is_finite() && s[l].at_least_zero());
        order_is_by_value(t[k], r);
        order_is_by_value(r, t[k]);
        if k < i {
            assert(leq(t[k], t[i]));
        }
        if i < k {
            assert(leq(t[i], t[k]));
        }
    }
    lemma_how_many_at_most(t, quieter, 0, i);
    lemma_how_many_at_most(t, louder, i + 1, n as int);
    lemma_how_many_in_any_order(s, t, quieter);
    lemma_how_many_in_any_order(s, t, louder);
}

/// Whether readings are whole multiples of 2^e units of 2^-149.
pub open spec fn are_multiples(s: Seq<Single>, e: nat) -> bool {
    forall|i: int| 0 <= i < s.len() ==> (#[trigger] s[i]).value() % pow2(e) as int == 0
}

/// A sum of numbers that are multiples of the same power of two is exact, as long as it is
/// less than 2^24 times that power.
pub proof fn a_sum_of_coarse_numbers_is_exact(s: Seq<Single>, e: nat)
    requires
        all_positive(s),
        are_multiples(s, e),
        e <= 149,
        exact_sum(s) < 0x100_0000 * pow2(e),
    ensures
        sum(s).is_finite(),
        sum(s).at_least_zero(),
        sum(s).value() == exact_sum(s),
        exact_sum(s) >= 0,
        exact_sum(s) % pow2(e) as int == 0,
    decreases s.len(),
{
    let p = pow2(e) as int;
    lemma_pow2_pos(e);
    if s.len() > 0 {
        let n = s.len() - 1;
        let rest = s.drop_last();
        let x = s[n];
        assert forall|i: int| 0 <= i < rest.len() implies (#[trigger] rest[i]).is_finite()
            && rest[i].at_least_zero() by {
            assert(rest[i] == s[i]);
        }
        assert forall|i: int| 0 <= i < rest.len() implies (#[trigger] rest[i]).value() % p == 0 by {
            assert(rest[i] == s[i]);
        }
        assert(x.is_finite() && x.at_least_zero() && x.value() % p == 0);
        assert(exact_sum(s) == exact_sum(rest) + x.value());
        assert(x.value() >= 0);
        a_sum_of_coarse_numbers_is_exact(rest, e);
        let t = exact_sum(s);
        lemma_add_mod_noop(exact_sum(rest), x.value(), p);
        assert(t % p == 0) by {
            assert((0int + 0int) % p == 0) by {
                lemma_small_mod(0, p as nat);
            }
        }
        let q = t / p;
        lemma_fundamental_div_mod(t, p);
        assert(t == q * p) by (nonlinear_arith)
            requires
                t == p * q + t % p,
                t % p == 0,
        ;
        assert(0 <= q < 0x100_0000) by (nonlinear_arith)
            requires
                t == q * p,
                0 <= t < 0x100_0000 * p,
                p > 0,
        ;
        lemma_representable(q as nat, e);
        lemma_rounded_small(0, 1);
        lemma_sum(s);
        assert(units(rounded(t as nat, 1)) == t);
    } else {
        lemma_small_mod(0, p as nat);
    }
}

/// Where the sum of the readings of speech is exact, the reported mean is the number nearest
/// to the exact mean.
pub proof fn the_mean_of_an_exact_sum_is_the_nearest(
    samples: Seq<Single>,
    mode: CalibMode,
    z: Single,
)
    requires
        all_bounded(samples),
        10 <= speech(samples).len() < 0x100_0000,
        sum(speech(samples)).is_finite(),
        sum(speech(samples)).value() == exact_sum(speech(samples)),
    ensures
        rounds(
            exact_sum(speech(samples)) * pow2(149),
            (speech(samples).len() * pow2(149)) as nat,
            threshold_stats(samples, mode).mean,
            z,
        ),
{
    let s = speech(samples);
    let n = s.len();
    lemma_count(n);
    lemma_small_int(n);
    lemma_pow2_pos(149);
    assert(n * pow2(149) > 0) by (nonlinear_arith)
        requires
            n > 0,
            pow2(149) > 0,
    ;
    quotients_are_rounded_to_nearest(sum(s), of_int(n as int), z);
}

} // verus!
