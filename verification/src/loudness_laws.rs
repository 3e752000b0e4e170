//! What of a buffer its loudness depends on.
use crate::accuracy::close;
use crate::accuracy::lemma_close_scaled;
use crate::accuracy::lemma_close_sum;
use crate::accuracy::lemma_close_through;
use crate::accuracy::lemma_close_wider;
use crate::accuracy::lemma_no_more_divided;
use crate::accuracy::lemma_no_more_root;
use crate::accuracy::lemma_no_more_wider;
use crate::accuracy::lemma_one_step;
use crate::accuracy::lemma_quotient_error;
use crate::accuracy::lemma_root_error;
use crate::accuracy::lemma_rounding_error;
use crate::convert::of_int;
use crate::level::level;
use crate::level::reading;
use crate::level::root_mean_square;
use crate::level::square_sum;
use crate::level::Level;
use crate::level::DB_PER_DECADE;
use crate::level::FULL_SCALE_DB;
use crate::level::SILENCE_DB;
use crate::level::TOP_DB;
use crate::level_laws::a_larger_logarithm_reads_no_lower;
use crate::level_laws::a_reading_stays_on_the_scale;
use crate::level_laws::all_numbers;
use crate::level_laws::lemma_plus_monotone;
use crate::level_laws::lemma_square_sum;
use crate::positive::lemma_count;
use crate::positive::lemma_over;
use crate::positive::lemma_plus;
use crate::positive::lemma_root_monotone;
use crate::positive::lemma_square;
use crate::positive::nearest_single_is_monotone;
use crate::precision::lemma_significand;
use crate::precision::lemma_small_int;
use crate::precision::lemma_units_at;
use crate::precision::order_is_by_value;
use crate::precision::rounding_is_monotone;
use crate::precision::rounding_keeps_representable;
use crate::rounding::last_place;
use crate::rounding::lemma_last_place;
use crate::rounding::lemma_last_place_unique;
use crate::rounding::nearest;
use crate::rounding::rounded;
use crate::rounding::INFINITY_BITS;
use crate::sample_laws::the_patterns_are_those_of_their_numbers;
use crate::single::lemma_rounded_small;
use crate::single::units;
use crate::single::Single;
use vstd::arithmetic::div_mod::lemma_fundamental_div_mod;
use vstd::arithmetic::div_mod::lemma_fundamental_div_mod_converse;
use vstd::arithmetic::power2::lemma2_to64;
use vstd::arithmetic::power2::lemma_pow2_adds;
use vstd::arithmetic::power2::lemma_pow2_pos;
use vstd::arithmetic::power2::lemma_pow2_strictly_increases;
use vstd::arithmetic::power2::lemma_pow2_unfold;
use vstd::arithmetic::power2::pow2;
use vstd::prelude::*;
use vstd::seq_lib::commutative_foldr;
use vstd::seq_lib::group_to_multiset_ensures;
use vstd::seq_lib::lemma_fold_right_permutation;

verus! {

/// The square of a number does not depend on its sign.
proof fn lemma_square_of_magnitude(x: Single, y: Single)
    requires
        x.magnitude() == y.magnitude(),
    ensures
        x.times(x) == y.times(y),
{
    let v = x.value();
    let w = y.value();
    assert(v * v == w * w) by (nonlinear_arith)
        requires
            v == w || v == -w,
    ;
}

proof fn lemma_sum_of_magnitudes(x: Seq<Single>, y: Seq<Single>)
    requires
        x.len() == y.len(),
        forall|i: int| 0 <= i < x.len() ==> (#[trigger] x[i]).magnitude() == y[i].magnitude(),
    ensures
        square_sum(x) == square_sum(y),
    decreases x.len(),
{
    if x.len() > 0 {
        let a = x.drop_last();
        let b = y.drop_last();
        assert forall|i: int| 0 <= i < a.len() implies (#[trigger] a[i]).magnitude()
            == b[i].magnitude() by {
            assert(a[i] == x[i] && b[i] == y[i]);
        }
        lemma_sum_of_magnitudes(a, b);
        assert(x.last() == x[x.len() - 1]);
        lemma_square_of_magnitude(x.last(), y.last());
    }
}

/// Only the magnitudes of the samples count: buffers that differ in signs alone have the
/// same level.
pub proof fn only_magnitudes_count(x: Seq<Single>, y: Seq<Single>)
    requires
        x.len() == y.len(),
        forall|i: int| 0 <= i < x.len() ==> (#[trigger] x[i]).magnitude() == y[i].magnitude(),
    ensures
        root_mean_square(x) == root_mean_square(y),
        level(x) == level(y),
{
    lemma_sum_of_magnitudes(x, y);
}

/// Squares keep the order of magnitudes.
pub(crate) proof fn lemma_square_monotone(x: Single, y: Single)
    requires
        !x.is_nan(),
        !y.is_nan(),
        x.magnitude() <= y.magnitude(),
    ensures
        x.times(x).bits <= y.times(y).bits,
{
    lemma_square(x);
    lemma_square(y);
    if y.is_finite() {
        let v = x.value();
        let w = y.value();
        let m = units(x.magnitude());
        let k = units(y.magnitude());
        order_is_by_value(
            Single { bits: x.magnitude() as u32 },
            Single { bits: y.magnitude() as u32 },
        );
        lemma_pow2_pos(149);
        assert(v * v <= w * w) by (nonlinear_arith)
            requires
                v == m || v == -m,
                w == k || w == -k,
                0 <= m <= k,
        ;
        nearest_single_is_monotone(v * v, w * w, pow2(149), false, false);
    }
}

proof fn lemma_square_sum_monotone(x: Seq<Single>, y: Seq<Single>)
    requires
        x.len() == y.len(),
        all_numbers(x),
        all_numbers(y),
        forall|i: int| 0 <= i < x.len() ==> (#[trigger] x[i]).magnitude() <= y[i].magnitude(),
    ensures
        square_sum(x).bits <= square_sum(y).bits <= INFINITY_BITS,
    decreases x.len(),
{
    lemma_square_sum(y);
    if x.len() > 0 {
        let a = x.drop_last();
        let b = y.drop_last();
        let n = x.len() - 1;
        assert forall|i: int| 0 <= i < a.len() implies !(#[trigger] a[i]).is_nan()
            && a[i].magnitude() <= b[i].magnitude() by {
            assert(a[i] == x[i] && b[i] == y[i]);
        }
        assert forall|i: int| 0 <= i < b.len() implies !(#[trigger] b[i]).is_nan() by {
            assert(b[i] == y[i]);
        }
        lemma_square_sum_monotone(a, b);
        assert(!x[n].is_nan() && !y[n].is_nan() && x[n].magnitude() <= y[n].magnitude());
        let p = x[n].times(x[n]);
        let q = y[n].times(y[n]);
        lemma_square_monotone(x[n], y[n]);
        lemma_square(x[n]);
        lemma_square(y[n]);
        lemma_plus(square_sum(a), p);
        if square_sum(b).is_finite() && q.is_finite() {
            lemma_plus_monotone(square_sum(a), p, square_sum(b), q);
            lemma_plus(square_sum(b), q);
        }
    }
}

/// Quotients by the same number keep order.
pub(crate) proof fn lemma_over_monotone(a: Single, b: Single, n: Single)
    requires
        a.bits <= b.bits <= INFINITY_BITS,
        n.at_least_zero(),
        n.is_finite(),
        !n.is_zero(),
    ensures
        a.over(n).bits <= b.over(n).bits <= INFINITY_BITS,
{
    lemma_over(a, n);
    lemma_over(b, n);
    if b.is_finite() {
        let u = pow2(149);
        let v = units(a.magnitude());
        let w = units(b.magnitude());
        let d = units(n.magnitude());
        order_is_by_value(a, b);
        order_is_by_value(Single { bits: 0 }, n);
        assert((v * u) * d <= (w * u) * d) by (nonlinear_arith)
            requires
                v <= w,
        ;
        rounding_is_monotone(v * u, d, w * u, d);
    }
}

/// Whether a level reads no higher than another one, whatever the logarithm is, as
/// long as it keeps order.
pub open spec fn reads_no_higher(a: Level, b: Level) -> bool {
    match (a, b) {
        (Level::Reading(p), Level::Reading(q)) => p.rank() <= q.rank(),
        (Level::Reading(p), Level::LogOf(_)) => p.bits == SILENCE_DB,
        (Level::LogOf(_), Level::Reading(q)) => q.bits == TOP_DB,
        (Level::LogOf(p), Level::LogOf(q)) => p.rank() <= q.rank(),
    }
}

/// A louder buffer never reads lower: where no sample is of greater magnitude than the
/// one at the same place of another buffer, neither is the amplitude, nor the level.
pub proof fn a_louder_buffer_reads_no_lower(quiet: Seq<Single>, loud: Seq<Single>)
    requires
        quiet.len() == loud.len() <= usize::MAX,
        all_numbers(quiet),
        all_numbers(loud),
        forall|i: int|
            0 <= i < quiet.len() ==> (#[trigger] quiet[i]).magnitude() <= loud[i].magnitude(),
    ensures
        quiet.len() > 0 ==> !root_mean_square(quiet).is_nan() && !root_mean_square(loud).is_nan()
            && root_mean_square(quiet).rank() <= root_mean_square(loud).rank(),
        reads_no_higher(level(quiet), level(loud)),
{
    if quiet.len() > 0 {
        let n = of_int(quiet.len() as int);
        lemma_square_sum_monotone(quiet, loud);
        lemma_count(quiet.len());
        lemma_over_monotone(square_sum(quiet), square_sum(loud), n);
        lemma_root_monotone(square_sum(quiet).over(n), square_sum(loud).over(n));
    }
}

/// The reading of a level, given the logarithm for its amplitude.
pub open spec fn reading_of(level: Level, log: Single) -> Single {
    match level {
        Level::Reading(db) => db,
        Level::LogOf(_) => reading(log),
    }
}

/// What reads no higher as a level does so on the scale, for any logarithms that are
/// numbers and in order.
pub proof fn levels_keep_their_order_on_the_scale(
    a: Level,
    b: Level,
    log_a: Single,
    log_b: Single,
)
    requires
        reads_no_higher(a, b),
        !log_a.is_nan(),
        !log_b.is_nan(),
        a is LogOf && b is LogOf ==> log_a.rank() <= log_b.rank(),
    ensures
        reading_of(a, log_a).rank() <= reading_of(b, log_b).rank(),
{
    a_reading_stays_on_the_scale(log_a);
    a_reading_stays_on_the_scale(log_b);
    if a is LogOf && b is LogOf {
        a_larger_logarithm_reads_no_lower(log_a, log_b);
    }
}

/// The sum of the squares of samples without rounding, in units of 2^-298.
pub open spec fn exact_square_sum(samples: Seq<Single>) -> int
    decreases samples.len(),
{
    if samples.len() == 0 {
        0
    } else {
        exact_square_sum(samples.drop_last()) + samples.last().value() * samples.last().value()
    }
}

/// Whether the squares of a buffer of numbers are summed without loss.
pub open spec fn sums_exactly(samples: Seq<Single>) -> bool {
    &&& all_numbers(samples)
    &&& square_sum(samples).is_finite()
    &&& square_sum(samples).value() * pow2(149) == exact_square_sum(samples)
}

proof fn lemma_exact_fold(samples: Seq<Single>, t: int)
    ensures
        samples.fold_right(|x: Single, t: int| t + x.value() * x.value(), t) == t
            + exact_square_sum(samples),
    decreases samples.len(),
{
    if samples.len() > 0 {
        let x = samples.last();
        lemma_exact_fold(samples.drop_last(), t + x.value() * x.value());
    }
}

/// The exact sum of the squares does not depend on the order of the samples.
pub proof fn the_exact_sum_is_the_same_in_any_order(x: Seq<Single>, y: Seq<Single>)
    requires
        x.to_multiset() == y.to_multiset(),
    ensures
        exact_square_sum(x) == exact_square_sum(y),
{
    let f = |x: Single, t: int| t + x.value() * x.value();
    assert(commutative_foldr(f));
    lemma_fold_right_permutation(x, y, f, 0);
    lemma_exact_fold(x, 0);
    lemma_exact_fold(y, 0);
}

/// The exact sums of the squares of buffers add up where the buffers are joined.
pub proof fn exact_sums_add_up(x: Seq<Single>, y: Seq<Single>)
    ensures
        exact_square_sum(x + y) == exact_square_sum(x) + exact_square_sum(y),
    decreases y.len(),
{
    if y.len() > 0 {
        exact_sums_add_up(x, y.drop_last());
        assert((x + y).drop_last() =~= x + y.drop_last());
    } else {
        assert(x + y =~= x);
    }
}

/// Finite sums of squares that have the same value are the same.
proof fn lemma_same_value(a: Single, b: Single)
    requires
        a.at_least_zero(),
        b.at_least_zero(),
        a.is_finite(),
        b.is_finite(),
        a.value() == b.value(),
    ensures
        a == b,
{
    order_is_by_value(a, b);
}

/// The order of the samples does not matter but for rounding: where the squares of
/// buffers with the same samples are summed without loss, the buffers have the same
/// level.
pub proof fn order_does_not_matter_but_for_rounding(x: Seq<Single>, y: Seq<Single>)
    requires
        x.to_multiset() == y.to_multiset(),
        sums_exactly(x),
        sums_exactly(y),
    ensures
        level(x) == level(y),
{
    broadcast use group_to_multiset_ensures;

    let a = square_sum(x);
    let b = square_sum(y);
    let v = a.value();
    let w = b.value();
    the_exact_sum_is_the_same_in_any_order(x, y);
    lemma_square_sum(x);
    lemma_square_sum(y);
    lemma_pow2_pos(149);
    assert(v == w) by (nonlinear_arith)
        requires
            v * pow2(149) == w * pow2(149),
            pow2(149) > 0,
    ;
    lemma_same_value(a, b);
    assert(x.to_multiset().len() == x.len() && y.to_multiset().len() == y.len());
}

/// The nearest whole number to a quotient of which both sides are doubled.
proof fn lemma_nearest_doubled(n: nat, d: nat)
    requires
        d > 0,
    ensures
        nearest(2 * n, 2 * d) == nearest(n, d),
{
    let q = n / d;
    let r = n % d;
    lemma_fundamental_div_mod(n as int, d as int);
    assert(2 * n == (2 * d) * q + 2 * r) by (nonlinear_arith)
        requires
            n == d * q + r,
    ;
    lemma_fundamental_div_mod_converse((2 * n) as int, (2 * d) as int, q as int, (2 * r) as int);
}

/// Twice a count is held as twice the number that holds it.
proof fn lemma_doubled_count(n: nat)
    requires
        0 < n,
        2 * n <= usize::MAX,
    ensures
        units(of_int(2 * n as int).magnitude()) == 2 * units(of_int(n as int).magnitude()),
{
    let u = pow2(149);
    let v = n * u;
    let k = last_place(v, 1);
    let q = nearest(v, pow2(k));
    lemma2_to64();
    lemma_pow2_pos(149);
    lemma_pow2_pos(k);
    lemma_count(n);
    lemma_count(2 * n);
    assert(v >= u && (2 * n) * u == 2 * v) by (nonlinear_arith)
        requires
            v == n * u,
            n >= 1,
    ;
    lemma_last_place(v, 1);
    if k == 0 {
        lemma_pow2_strictly_increases(24, 149);
    }
    lemma_pow2_unfold(k + 1);
    lemma_pow2_unfold(25 + k);
    lemma_pow2_unfold(24 + k);
    lemma_last_place_unique(2 * v, 1, k + 1);
    assert(1 * pow2(k) == pow2(k) && 1 * pow2(k + 1) == pow2(k + 1));
    lemma_nearest_doubled(v, pow2(k));
    lemma_significand(v, 1);
    lemma_units_at(k, q);
    lemma_units_at(k + 1, q);
    assert(q * pow2(k + 1) == 2 * (q * pow2(k))) by (nonlinear_arith)
        requires
            pow2(k + 1) == 2 * pow2(k),
    ;
    assert(rounded(v, 1) == k * 0x80_0000 + q);
    assert(rounded(2 * v, 1) == (k + 1) * 0x80_0000 + q);
}

/// Repetition does not matter but for rounding: where the squares are summed without
/// loss, a buffer that is played twice has the same level.
pub proof fn repetition_does_not_matter_but_for_rounding(x: Seq<Single>)
    requires
        2 * x.len() <= usize::MAX,
        sums_exactly(x),
        sums_exactly(x + x),
    ensures
        level(x + x) == level(x),
{
    let n = x.len();
    if n > 0 {
        let a = square_sum(x);
        let b = square_sum(x + x);
        let u = pow2(149);
        let v = a.value();
        let w = b.value();
        let d = units(of_int(n as int).magnitude());
        exact_sums_add_up(x, x);
        lemma_square_sum(x);
        lemma_square_sum(x + x);
        lemma_pow2_pos(149);
        lemma_count(n);
        lemma_count(2 * n);
        lemma_doubled_count(n);
        order_is_by_value(Single { bits: 0 }, of_int(n as int));
        assert(w == 2 * v) by (nonlinear_arith)
            requires
                w * u == v * u + v * u,
                u > 0,
        ;
        let p = units(a.magnitude());
        let q = units(b.magnitude());
        assert((p * u) * (2 * d) == (q * u) * d) by (nonlinear_arith)
            requires
                q == 2 * p,
        ;
        rounding_is_monotone(p * u, d, q * u, 2 * d);
        rounding_is_monotone(q * u, 2 * d, p * u, d);
    } else {
        assert(x + x =~= x);
    }
}

/// The sum of the squares of a buffer is the exact one up to rounding: up to a step for
/// each sample and one more, and a unit of 2^-149 for each sample.
pub proof fn the_sum_is_exact_up_to_rounding(samples: Seq<Single>)
    requires
        all_numbers(samples),
        square_sum(samples).is_finite(),
    ensures
        close(
            square_sum(samples).value() * pow2(149),
            exact_square_sum(samples),
            samples.len() + 1,
            (samples.len() * pow2(149)) as int,
        ),
        exact_square_sum(samples) >= 0,
    decreases samples.len(),
{
    let u = pow2(149);
    let n = samples.len();
    lemma_pow2_pos(149);
    if n == 0 {
        lemma_one_step(0, 0, 0);
        assert(0 * u == 0) by (nonlinear_arith);
    } else {
        let rest = samples.drop_last();
        let x = samples[n - 1];
        let a = square_sum(rest);
        let y = x.times(x);
        let m = (n - 1) as nat;
        assert forall|i: int| 0 <= i < rest.len() implies !(#[trigger] rest[i]).is_nan() by {
            assert(rest[i] == samples[i]);
        }
        assert(!x.is_nan());
        lemma_square_sum(rest);
        lemma_square_sum(samples);
        lemma_square(x);
        assert(a.is_finite() && y.is_finite() && x.is_finite());
        the_sum_is_exact_up_to_rounding(rest);
        let v = x.value();
        let square = v * v;
        assert(square >= 0) by (nonlinear_arith)
            requires
                square == v * v,
        ;
        let s = a.value() + y.value();
        let t = square_sum(samples).value();
        let before = a.value() * u;
        let q = y.value() * u;
        lemma_rounded_zero();
        assert(units(rounded(square as nat, u)) == y.value());
        assert(units(rounded(s as nat, 1)) == t);
        lemma_rounding_error(square as nat, u);
        lemma_rounding_error(s as nat, 1);
        lemma_close_scaled(t, s, 1, 0, u as int);
        assert(0 * u == 0 && s * u == before + q && before >= 0 && q >= 0) by (nonlinear_arith)
            requires
                s == a.value() + y.value(),
                before == a.value() * u,
                q == y.value() * u,
                a.value() >= 0,
                y.value() >= 0,
        ;
        lemma_close_wider(q, square, 1, u as int, n, u as int);
        lemma_close_sum(before, exact_square_sum(rest), q, square, n, (m * u) as int, u as int);
        assert(m * u + u == n * u) by (nonlinear_arith)
            requires
                m == n - 1,
        ;
        lemma_close_through(
            t * u,
            before + q,
            exact_square_sum(samples),
            1,
            n,
            0,
            (n * u) as int,
        );
    }
}

proof fn lemma_rounded_zero()
    ensures
        rounded(0, pow2(149)) == 0,
        rounded(0, 1) == 0,
{
    lemma_pow2_pos(149);
    lemma_rounded_small(0, pow2(149));
    lemma_rounded_small(0, 1);
}

/// The amplitude is the root mean square up to rounding: its square, times the number of
/// samples, is the exact sum of the squares up to four steps of rounding more than there
/// are samples, and two units of 2^-149 for each sample.
pub proof fn the_amplitude_is_exact_up_to_rounding(samples: Seq<Single>)
    requires
        0 < samples.len() <= usize::MAX,
        all_numbers(samples),
        square_sum(samples).is_finite(),
    ensures
        ({
            let a = root_mean_square(samples);
            let n = samples.len();
            &&& a.at_least_zero()
            &&& a.is_finite()
            &&& close(
                (a.value() * a.value()) * n,
                exact_square_sum(samples),
                n + 4,
                2 * (n * pow2(149)) as int,
            )
        }),
{
    let u = pow2(149);
    let n = samples.len();
    let sum = square_sum(samples);
    let mean = sum.over(of_int(n as int));
    let r = root_mean_square(samples).value();
    let q = mean.value();
    let s = sum.value();
    lemma_pow2_pos(149);
    lemma_square_sum(samples);
    the_sum_is_exact_up_to_rounding(samples);
    lemma_quotient_error(sum, n);
    lemma_root_error(mean);
    lemma_close_scaled(r * r, q * u, 2, 0, n as int);
    lemma_close_scaled(q * n, s, 1, n as int, u as int);
    assert(0 * n == 0 && (q * u) * n == (q * n) * u) by (nonlinear_arith);
    let lost = (n * u) as int;
    assert(lost >= 0) by (nonlinear_arith)
        requires
            lost == n * u,
            u > 0,
            n >= 0,
    ;
    lemma_close_through((r * r) * n, (q * n) * u, s * u, 2, 1, 0, lost);
    lemma_close_through((r * r) * n, s * u, exact_square_sum(samples), 3, n + 1, lost, lost);
}

/// Amplitudes whose squares are close to the same number are close.
proof fn lemma_close_amplitudes(a: int, b: int, e: int, n: nat, j: nat, k: nat)
    requires
        a >= 0,
        b >= 0,
        e >= 0,
        n > 0,
        j <= k,
        close((a * a) * n, e, j, 2 * (n * pow2(149)) as int),
        close((b * b) * n, e, k, 2 * (n * pow2(149)) as int),
    ensures
        close(a, b, k, pow2(76) as int),
{
    let u = pow2(149);
    let lost = 2 * (n * u) as int;
    let slack = 4 * u as int;
    let w = pow2(76) as int;
    lemma_pow2_pos(149);
    lemma_pow2_adds(76, 76);
    lemma_pow2_adds(3, 149);
    lemma2_to64();
    assert((a * a) * n >= 0 && (b * b) * n >= 0 && lost >= 0) by (nonlinear_arith)
        requires
            n > 0,
            u > 0,
            lost == 2 * (n * u),
    ;
    lemma_close_wider((a * a) * n, e, j, lost, k, lost);
    lemma_close_through((a * a) * n, e, (b * b) * n, k, k, lost, lost);
    assert(lost + lost == slack * n) by (nonlinear_arith)
        requires
            lost == 2 * (n * u),
            slack == 4 * u,
    ;
    lemma_no_more_divided(a * a, b * b, 2 * k, slack, n as int);
    lemma_no_more_divided(b * b, a * a, 2 * k, slack, n as int);
    assert(w * w == 8 * u);
    assert(a * a >= 0 && b * b >= 0) by (nonlinear_arith);
    lemma_no_more_wider(a * a, b * b, 2 * k, slack, 2 * k, w * w);
    lemma_no_more_wider(b * b, a * a, 2 * k, slack, 2 * k, w * w);
    lemma_no_more_root(a, b, k, w);
    lemma_no_more_root(b, a, k, w);
}

/// The order of the samples does not matter up to rounding: the amplitudes of two
/// buffers with the same samples are the same up to four steps of rounding more than
/// there are samples, and 2^-73.
pub proof fn order_does_not_matter_up_to_rounding(x: Seq<Single>, y: Seq<Single>)
    requires
        x.to_multiset() == y.to_multiset(),
        0 < x.len() <= usize::MAX,
        all_numbers(x),
        square_sum(x).is_finite(),
        square_sum(y).is_finite(),
    ensures
        close(
            root_mean_square(x).value(),
            root_mean_square(y).value(),
            x.len() + 4,
            pow2(76) as int,
        ),
{
    broadcast use group_to_multiset_ensures;

    assert(x.to_multiset().len() == x.len() && y.to_multiset().len() == y.len());
    assert forall|i: int| 0 <= i < y.len() implies !(#[trigger] y[i]).is_nan() by {
        assert(y.contains(y[i]));
        assert(y.to_multiset().count(y[i]) > 0);
        assert(x.to_multiset().count(y[i]) > 0);
        assert(x.contains(y[i]));
        let j = choose|j: int| 0 <= j < x.len() && x[j] == y[i];
        assert(!x[j].is_nan());
    }
    the_exact_sum_is_the_same_in_any_order(x, y);
    the_amplitude_is_exact_up_to_rounding(x);
    the_amplitude_is_exact_up_to_rounding(y);
    the_sum_is_exact_up_to_rounding(x);
    lemma_close_amplitudes(
        root_mean_square(x).value(),
        root_mean_square(y).value(),
        exact_square_sum(x),
        x.len(),
        x.len() + 4,
        x.len() + 4,
    );
}

/// Repetition does not matter up to rounding: the amplitude of a buffer that is played
/// twice is that of the buffer up to four steps of rounding more than there are then
/// samples, and 2^-73.
pub proof fn repetition_does_not_matter_up_to_rounding(x: Seq<Single>)
    requires
        0 < x.len(),
        2 * x.len() <= usize::MAX,
        all_numbers(x),
        square_sum(x).is_finite(),
        square_sum(x + x).is_finite(),
    ensures
        close(
            root_mean_square(x).value(),
            root_mean_square(x + x).value(),
            2 * x.len() + 4,
            pow2(76) as int,
        ),
{
    let n = x.len();
    let z = x + x;
    let u = pow2(149);
    let a = root_mean_square(x).value();
    let b = root_mean_square(z).value();
    let e = exact_square_sum(x);
    assert forall|i: int| 0 <= i < z.len() implies !(#[trigger] z[i]).is_nan() by {
        if i < n {
            assert(z[i] == x[i]);
        } else {
            assert(z[i] == x[i - n]);
        }
    }
    exact_sums_add_up(x, x);
    the_amplitude_is_exact_up_to_rounding(x);
    the_amplitude_is_exact_up_to_rounding(z);
    the_sum_is_exact_up_to_rounding(x);
    assert((b * b) * (2 * n) == ((b * b) * n) * 2 && 2 * ((2 * n) * u) == (2 * (n * u)) * 2)
        by (nonlinear_arith);
    lemma_no_more_divided((b * b) * n, e, 2 * n + 4, 2 * (n * u) as int, 2);
    lemma_no_more_divided(e, (b * b) * n, 2 * n + 4, 2 * (n * u) as int, 2);
    lemma_close_amplitudes(a, b, e, n, n + 4, 2 * n + 4);
}

/// The exact reading for a logarithm, in units of 2^-149, held within the scale.
pub open spec fn exact_reading(log: Single) -> int {
    let y = 20 * log.value() + 100 * pow2(149);
    if y < 0 {
        0
    } else if y > 120 * pow2(149) {
        120 * pow2(149) as int
    } else {
        y
    }
}

/// The reading for a finite logarithm is away from the exact one by at most 2^-17 dB.
pub proof fn the_reading_is_exact_up_to_rounding(log: Single)
    requires
        log.is_finite(),
    ensures
        -pow2(132) <= reading(log).value() - exact_reading(log) <= pow2(132),
{
    let u = pow2(149);
    let a = (Single { bits: DB_PER_DECADE }).value();
    let c = (Single { bits: FULL_SCALE_DB }).value();
    let top = Single { bits: TOP_DB };
    let v = log.value();
    let y = 20 * v + 100 * u;
    let n = a * v + c * u;
    lemma2_to64();
    lemma_pow2_pos(149);
    lemma_pow2_pos(132);
    lemma_pow2_adds(17, 132);
    the_patterns_are_those_of_their_numbers();
    lemma_small_int(20);
    lemma_small_int(100);
    lemma_small_int(120);
    assert(a == 20 * u);
    assert(c == 100 * u);
    assert(top.value() == 120 * u);
    assert(n == y * u) by (nonlinear_arith)
        requires
            n == a * v + c * u,
            a == 20 * u,
            c == 100 * u,
            y == 20 * v + 100 * u,
    ;
    nearest_single_is_monotone(n, n, u, false, false);
    if y < 0 {
        assert(n < 0) by (nonlinear_arith)
            requires
                n == y * u,
                y < 0,
                u > 0,
        ;
    } else if y == 0 {
        assert(n == 0) by (nonlinear_arith)
            requires
                n == y * u,
                y == 0,
        ;
    } else {
        assert(n > 0) by (nonlinear_arith)
            requires
                n == y * u,
                y > 0,
                u > 0,
        ;
        let t = units(TOP_DB as nat);
        rounding_keeps_representable(TOP_DB as nat, u);
        if y > 120 * u {
            assert((t * u) * u <= n * u) by (nonlinear_arith)
                requires
                    n == y * u,
                    t <= y,
            ;
            rounding_is_monotone(t * u, u, n as nat, u);
        } else {
            assert(n * u <= (t * u) * u) by (nonlinear_arith)
                requires
                    n == y * u,
                    y <= t,
            ;
            rounding_is_monotone(n as nat, u, t * u, u);
            assert((y as nat * u) * 1 == (y as nat) * u) by (nonlinear_arith);
            rounding_is_monotone(n as nat, u, y as nat, 1);
            rounding_is_monotone(y as nat, 1, n as nat, u);
            lemma_rounding_error(y as nat, 1);
        }
    }
}

/// Logarithms that are close read alike: the readings differ by no more than twenty
/// times as much, and 2^-16 dB.
pub proof fn close_logarithms_read_alike(a: Single, b: Single)
    requires
        a.is_finite(),
        b.is_finite(),
        a.value() <= b.value(),
    ensures
        reading(b).value() - reading(a).value() <= 20 * (b.value() - a.value()) + pow2(133),
        reading(a).value() - reading(b).value() <= 20 * (b.value() - a.value()) + pow2(133),
{
    lemma_pow2_adds(1, 132);
    lemma2_to64();
    the_reading_is_exact_up_to_rounding(a);
    the_reading_is_exact_up_to_rounding(b);
}

/// Order and repetition of the samples do not matter to the reading up to rounding. `y`
/// has the samples of `x` in any order, and none of the buffers is silent or clips. The
/// amplitudes are the same up to rounding, and where logarithms of them are at most
/// `apart` units of 2^-149 from one another, the readings are at most twenty times as far
/// apart, and 2^-16 dB.
pub proof fn order_and_repetition_do_not_matter_to_the_reading(
    x: Seq<Single>,
    y: Seq<Single>,
    log_x: Single,
    log_y: Single,
    log_xx: Single,
    apart: int,
)
    requires
        x.to_multiset() == y.to_multiset(),
        2 * x.len() <= usize::MAX,
        all_numbers(x),
        level(x) is LogOf,
        level(y) is LogOf,
        level(x + x) is LogOf,
        log_x.is_finite(),
        log_y.is_finite(),
        log_xx.is_finite(),
        -apart <= log_x.value() - log_y.value() <= apart,
        -apart <= log_x.value() - log_xx.value() <= apart,
    ensures
        ({
            let a = level(x)->LogOf_0.value();
            let b = level(y)->LogOf_0.value();
            let c = level(x + x)->LogOf_0.value();
            let db = reading_of(level(x), log_x).value();
            let db_y = reading_of(level(y), log_y).value();
            let db_xx = reading_of(level(x + x), log_xx).value();
            let most = 20 * apart + pow2(133);
            &&& close(a, b, x.len() + 4, pow2(76) as int)
            &&& close(a, c, 2 * x.len() + 4, pow2(76) as int)
            &&& -most <= db - db_y <= most
            &&& -most <= db - db_xx <= most
        }),
{
    broadcast use group_to_multiset_ensures;

    assert(x.to_multiset().len() == x.len() && y.to_multiset().len() == y.len());
    assert forall|i: int| 0 <= i < y.len() implies !(#[trigger] y[i]).is_nan() by {
        assert(y.contains(y[i]));
        assert(x.to_multiset().count(y[i]) > 0);
        assert(x.contains(y[i]));
        let j = choose|j: int| 0 <= j < x.len() && x[j] == y[i];
        assert(!x[j].is_nan());
    }
    assert forall|i: int| 0 <= i < (x + x).len() implies !(#[trigger] (x + x)[i]).is_nan() by {
        if i < x.len() {
            assert((x + x)[i] == x[i]);
        } else {
            assert((x + x)[i] == x[i - x.len()]);
        }
    }
    lemma_below_clipping(x);
    lemma_below_clipping(y);
    lemma_below_clipping(x + x);
    order_does_not_matter_up_to_rounding(x, y);
    repetition_does_not_matter_up_to_rounding(x);
    if log_x.value() <= log_y.value() {
        close_logarithms_read_alike(log_x, log_y);
    } else {
        close_logarithms_read_alike(log_y, log_x);
    }
    if log_x.value() <= log_xx.value() {
        close_logarithms_read_alike(log_x, log_xx);
    } else {
        close_logarithms_read_alike(log_xx, log_x);
    }
}

/// A buffer that does not clip has a finite sum of squares.
proof fn lemma_below_clipping(samples: Seq<Single>)
    requires
        samples.len() <= usize::MAX,
        all_numbers(samples),
        level(samples) is LogOf,
    ensures
        samples.len() > 0,
        square_sum(samples).is_finite(),
{
    lemma_square_sum(samples);
    lemma_count(samples.len());
}

} // verus!
