//! What holds of every normalised sample, and of the patterns of constants.
use crate::calibration::CALIBRATION_FALLBACK_DB;
use crate::calibration::DEVIATIONS;
use crate::calibration::LEVEL_SPEECH_DB;
use crate::calibration::MAX_THRESHOLD_DB;
use crate::calibration::MIN_THRESHOLD_DB;
use crate::calibration::PERCENTILE;
use crate::calibration::SILENCE_FLOOR_DB;
use crate::convert::of_int;
use crate::level::level;
use crate::level::CLIPPING;
use crate::level::DB_PER_DECADE;
use crate::level::FULL_SCALE;
use crate::level::FULL_SCALE_DB;
use crate::level::SILENCE_DB;
use crate::level::TOP_DB;
use crate::level_laws::is_normalised;
use crate::level_laws::lemma_full_scale;
use crate::level_laws::a_buffer_within_full_scale_does_not_clip;
use crate::level_laws::within_full_scale;
use crate::positive::lemma_count;
use crate::precision::lemma_nearest_whole;
use crate::precision::lemma_small_int;
use crate::precision::order_is_by_value;
use crate::precision::rounding_is_monotone;
use crate::precision::rounding_keeps_representable;
use crate::rounding::lemma_last_place_unique;
use crate::rounding::nearest;
use crate::rounding::rounded;
use crate::rounding::INFINITY_BITS;
use crate::samples::fraction_i16;
use crate::samples::fraction_i32;
use crate::samples::fraction_u16;
use crate::samples::NEGATIVE_FULL_SCALE;
use crate::single::lemma_rounded_small;
use crate::single::units;
use crate::single::Single;
use vstd::arithmetic::div_mod::lemma_fundamental_div_mod_converse;
use vstd::arithmetic::power2::lemma2_to64;
use vstd::arithmetic::power2::lemma_pow2_adds;
use vstd::arithmetic::power2::lemma_pow2_pos;
use vstd::arithmetic::power2::pow2;
use vstd::prelude::*;

verus! {

/// A pattern whose units are those of a whole number is the pattern of that number.
proof fn lemma_pattern(bits: u32, v: nat, up: nat)
    requires
        0x0080_0000 <= bits < INFINITY_BITS,
        up <= 23,
        v > 0,
        bits / 0x80_0000 + up == 150,
        0x80_0000 + bits % 0x80_0000 == v * pow2(up),
    ensures
        of_int(v as int) == (Single { bits }),
{
    let x = (bits / 0x80_0000 - 1) as nat;
    lemma_pow2_adds(up, x);
    lemma_pow2_pos(149);
    assert((v * pow2(up)) * pow2(x) == v * (pow2(up) * pow2(x))) by (nonlinear_arith);
    assert(units(bits as nat) == v * pow2(149));
    rounding_keeps_representable(bits as nat, 1);
    assert(v * pow2(149) > 0) by (nonlinear_arith)
        requires
            v > 0,
            pow2(149) > 0,
    ;
}

/// The patterns of constants are those of the numbers that they stand for: of
/// whole numbers, of the exact 3/2, and of the number nearest to 9/10.
pub proof fn the_patterns_are_those_of_their_numbers()
    ensures
        of_int(0) == (Single { bits: SILENCE_DB }),
        of_int(1) == (Single { bits: FULL_SCALE }),
        of_int(1) == (Single { bits: LEVEL_SPEECH_DB }),
        of_int(2) == (Single { bits: CLIPPING }),
        of_int(10) == (Single { bits: SILENCE_FLOOR_DB }),
        of_int(20) == (Single { bits: DB_PER_DECADE }),
        of_int(40) == (Single { bits: MIN_THRESHOLD_DB }),
        of_int(60) == (Single { bits: CALIBRATION_FALLBACK_DB }),
        of_int(95) == (Single { bits: MAX_THRESHOLD_DB }),
        of_int(100) == (Single { bits: FULL_SCALE_DB }),
        of_int(120) == (Single { bits: TOP_DB }),
        2 * (Single { bits: DEVIATIONS }).value() == 3 * pow2(149),
        rounded(9 * pow2(149), 10) == PERCENTILE,
{
    lemma2_to64();
    assert(0 * pow2(149) == 0) by (nonlinear_arith);
    lemma_pattern(FULL_SCALE, 1, 23);
    lemma_pattern(CLIPPING, 2, 22);
    lemma_pattern(SILENCE_FLOOR_DB, 10, 20);
    lemma_pattern(DB_PER_DECADE, 20, 19);
    lemma_pattern(MIN_THRESHOLD_DB, 40, 18);
    lemma_pattern(CALIBRATION_FALLBACK_DB, 60, 18);
    lemma_pattern(MAX_THRESHOLD_DB, 95, 17);
    lemma_pattern(FULL_SCALE_DB, 100, 17);
    lemma_pattern(TOP_DB, 120, 17);
    let g = pow2(126);
    lemma_pow2_adds(23, 126);
    let h = units(DEVIATIONS as nat);
    assert(2 * h == 3 * pow2(149)) by (nonlinear_arith)
        requires
            h == 0xc0_0000 * g,
            pow2(149) == 0x80_0000 * g,
    ;
    // 9/10 is 15099494 steps of 2^-24 and four tenths of one.
    let n = 9 * pow2(149);
    let s = pow2(125);
    lemma_pow2_pos(125);
    lemma_pow2_adds(24, 125);
    lemma_pow2_adds(23, 125);
    assert(n == 150_994_944 * s) by (nonlinear_arith)
        requires
            n == 9 * (0x100_0000 * s),
    ;
    lemma_last_place_unique(n, 10, 125);
    let d = 10 * s;
    assert(n == d * 15_099_494 + 4 * s) by (nonlinear_arith)
        requires
            n == 150_994_944 * s,
            d == 10 * s,
    ;
    lemma_fundamental_div_mod_converse(n as int, d as int, 15_099_494, (4 * s) as int);
}

/// A quotient of numbers of which the divisor is no smaller lies within full scale.
proof fn lemma_fraction(a: Single, b: Single)
    requires
        a.magnitude() <= b.magnitude(),
        b.is_finite(),
        !b.is_zero(),
    ensures
        is_normalised(a.over(b)),
{
    let x = Single { bits: a.magnitude() as u32 };
    let y = Single { bits: b.magnitude() as u32 };
    let u = pow2(149);
    let m = units(a.magnitude());
    let d = units(b.magnitude());
    order_is_by_value(x, y);
    order_is_by_value(Single { bits: 0 }, y);
    lemma_full_scale();
    rounding_keeps_representable(FULL_SCALE as nat, d);
    assert((m * u) * d <= (u * d) * d) by (nonlinear_arith)
        requires
            m <= d,
    ;
    rounding_is_monotone(m * u, d, u * d, d);
}

/// The magnitude of a whole number does not depend on its sign.
pub(crate) proof fn lemma_of_int_magnitude(v: int)
    ensures
        of_int(v).magnitude() == rounded(
            (if v < 0 {
                -v
            } else {
                v
            } as nat) * pow2(149),
            1,
        ),
{
    let u = pow2(149);
    lemma_pow2_pos(149);
    assert(v < 0 ==> v * u < 0 && -(v * u) == (-v) * u) by (nonlinear_arith)
        requires
            u > 0,
    ;
    assert(v > 0 ==> v * u > 0) by (nonlinear_arith)
        requires
            u > 0,
    ;
    assert(v == 0 ==> v * u == 0) by (nonlinear_arith);
    lemma_rounded_small(0, 1);
}

proof fn lemma_int_fraction(v: int, scale: nat)
    requires
        0 < scale <= 0xffff_ffff,
        -scale <= v <= scale,
    ensures
        is_normalised(of_int(v).over(of_int(scale as int))),
{
    let a = if v < 0 {
        -v
    } else {
        v
    } as nat;
    let u = pow2(149);
    lemma_count(scale);
    lemma_of_int_magnitude(v);
    lemma_of_int_magnitude(scale as int);
    assert((a * u) * 1 <= (scale * u) * 1) by (nonlinear_arith)
        requires
            a <= scale,
    ;
    rounding_is_monotone(a * u, 1, scale * u, 1);
    lemma_fraction(of_int(v), of_int(scale as int));
}

/// Signed 16-bit samples are normalised to full scale, and only the lowest one is
/// other than its exact fraction rounded to nearest.
pub proof fn i16_samples_are_normalised(s: i16)
    ensures
        is_normalised(fraction_i16(s)),
        s != i16::MIN ==> fraction_i16(s) == of_int(s as int).over(of_int(i16::MAX as int)),
        s == i16::MIN ==> fraction_i16(s) == (Single { bits: NEGATIVE_FULL_SCALE }),
{
    let scale = of_int(i16::MAX as int);
    let a = of_int(s as int);
    if s == i16::MIN {
        let u = pow2(149);
        let m = units(a.magnitude());
        let d = units(scale.magnitude());
        lemma_count(i16::MAX as nat);
        lemma_of_int_magnitude(s as int);
        lemma_of_int_magnitude(i16::MAX as int);
        lemma_small_int(0x8000);
        lemma_small_int(0x7fff);
        lemma_pow2_pos(149);
        lemma_full_scale();
        rounding_keeps_representable(FULL_SCALE as nat, d);
        assert(m == 0x8000 * u);
        assert(d == 0x7fff * u);
        assert((u * d) * d <= (m * u) * d) by (nonlinear_arith)
            requires
                m >= d,
        ;
        rounding_is_monotone(u * d, d, m * u, d);
        lemma_close_to_full_scale(m, d);
        assert(s as int * u < 0) by (nonlinear_arith)
            requires
                s < 0,
                u > 0,
        ;
    } else {
        lemma_int_fraction(s as int, i16::MAX as nat);
    }
}

/// A quotient of at most two is finite.
proof fn lemma_close_to_full_scale(m: nat, d: nat)
    requires
        0 < d,
        m <= 2 * d,
    ensures
        rounded(m * pow2(149), d) < INFINITY_BITS,
{
    let u = pow2(149);
    let two = 0x4000_0000nat;
    lemma2_to64();
    lemma_pow2_adds(23, 127);
    lemma_pow2_adds(1, 149);
    assert(units(two) == 2 * u);
    rounding_keeps_representable(two, d);
    assert((m * u) * d <= ((2 * u) * d) * d) by (nonlinear_arith)
        requires
            m <= 2 * d,
            u >= 0,
    ;
    rounding_is_monotone(m * u, d, (2 * u) * d, d);
}

/// The number nearest to the largest signed 32-bit number is 2^31.
proof fn lemma_largest_i32()
    ensures
        rounded(0x7fff_ffff * pow2(149), 1) == rounded(0x8000_0000 * pow2(149), 1),
{
    let u = pow2(149);
    let s = pow2(156);
    let n = 0x7fff_ffff * u;
    lemma2_to64();
    lemma_pow2_pos(149);
    lemma_pow2_adds(7, 149);
    lemma_pow2_adds(24, 156);
    lemma_pow2_adds(23, 156);
    assert(s == 128 * u);
    lemma_last_place_unique(n, 1, 156);
    assert(1 * s == s);
    assert(n == s * 0xff_ffff + 127 * u);
    lemma_fundamental_div_mod_converse(n as int, s as int, 0xff_ffff, (127 * u) as int);
    assert(rounded(n, 1) == 0x4f00_0000);
    let w = pow2(157);
    lemma_pow2_adds(8, 149);
    lemma_pow2_adds(24, 157);
    lemma_pow2_adds(23, 157);
    let top = 0x8000_0000 * u;
    assert(w == 256 * u);
    lemma_last_place_unique(top, 1, 157);
    assert(1 * w == w);
    assert(top == 0x80_0000 * w);
    lemma_nearest_whole(0x80_0000, w);
}

/// Signed 32-bit samples are normalised to full scale.
pub proof fn i32_samples_are_normalised(s: i32)
    ensures
        is_normalised(fraction_i32(s)),
{
    if s == i32::MIN {
        lemma_largest_i32();
        lemma_of_int_magnitude(s as int);
        lemma_of_int_magnitude(i32::MAX as int);
        lemma_count(i32::MAX as nat);
        lemma_fraction(of_int(s as int), of_int(i32::MAX as int));
    } else {
        lemma_int_fraction(s as int, i32::MAX as nat);
    }
}

/// Unsigned 16-bit samples are normalised to full scale, and their middle is silence.
pub proof fn u16_samples_are_normalised(s: u16)
    ensures
        is_normalised(fraction_u16(s)),
        s == 0x8000 ==> fraction_u16(s).is_zero(),
{
    let u = pow2(149);
    let a = of_int(s as int);
    let m = of_int(0x8000);
    lemma_pow2_pos(149);
    lemma_small_int(s as nat);
    lemma_small_int(0x8000);
    lemma_of_int_magnitude(s as int);
    lemma_of_int_magnitude(0x8000);
    lemma_count(0x8000);
    if s > 0 {
        lemma_count(s as nat);
    } else {
        assert(0 * u == 0) by (nonlinear_arith);
    }
    assert(a.value() == s * u);
    assert(m.value() == 0x8000 * u);
    let v = s - 0x8000;
    assert(s * u - 0x8000 * u == v * u) by (nonlinear_arith)
        requires
            v == s - 0x8000,
    ;
    let d = a.minus(m);
    assert(m.negated().value() == -m.value());
    assert(d == of_int(v));
    lemma_int_fraction(v, 0x8000);
    if s == 0x8000 {
        assert(0 * u == 0) by (nonlinear_arith);
        order_is_by_value(Single { bits: 0 }, m);
        lemma_rounded_small(0, units(m.magnitude()));
    }
}

/// Whatever a device delivers in a format of whole numbers, the buffer lies within full
/// scale: it is silent, or its reading is that of the logarithm of an amplitude of at
/// most one, and never the top of the scale.
pub proof fn whole_number_formats_stay_within_full_scale(
    i16_data: Seq<i16>,
    i32_data: Seq<i32>,
    u16_data: Seq<u16>,
)
    requires
        i16_data.len() <= usize::MAX,
        i32_data.len() <= usize::MAX,
        u16_data.len() <= usize::MAX,
    ensures
        within_full_scale(level(i16_data.map_values(|s: i16| fraction_i16(s)))),
        within_full_scale(level(i32_data.map_values(|s: i32| fraction_i32(s)))),
        within_full_scale(level(u16_data.map_values(|s: u16| fraction_u16(s)))),
{
    let a = i16_data.map_values(|s: i16| fraction_i16(s));
    let b = i32_data.map_values(|s: i32| fraction_i32(s));
    let c = u16_data.map_values(|s: u16| fraction_u16(s));
    assert forall|i: int| 0 <= i < a.len() implies is_normalised(#[trigger] a[i]) by {
        i16_samples_are_normalised(i16_data[i]);
    }
    assert forall|i: int| 0 <= i < b.len() implies is_normalised(#[trigger] b[i]) by {
        i32_samples_are_normalised(i32_data[i]);
    }
    assert forall|i: int| 0 <= i < c.len() implies is_normalised(#[trigger] c[i]) by {
        u16_samples_are_normalised(u16_data[i]);
    }
    a_buffer_within_full_scale_does_not_clip(a);
    a_buffer_within_full_scale_does_not_clip(b);
    a_buffer_within_full_scale_does_not_clip(c);
}

} // verus!
