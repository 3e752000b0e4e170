//! What the samples of each format stand for.
use crate::accuracy::close;
use crate::accuracy::lemma_close_through;
use crate::accuracy::lemma_quotient_error;
use crate::accuracy::lemma_rounding_error;
use crate::accuracy::PARTS;
use crate::arithmetic_laws::apart;
use crate::convert::of_int;
use crate::level_laws::lemma_full_scale;
use crate::loudness_laws::lemma_over_monotone;
use crate::positive::lemma_count;
use crate::positive::nearest_single_is_monotone;
use crate::precision::lemma_representable;
use crate::precision::lemma_small_int;
use crate::precision::order_is_by_value;
use crate::precision::rounding_keeps_representable;
use crate::rounding::rounded;
use crate::sample_laws::i16_samples_are_normalised;
use crate::sample_laws::lemma_of_int_magnitude;
use crate::samples::fraction_i16;
use crate::samples::fraction_i32;
use crate::samples::fraction_u16;
use crate::single::lemma_rounded_small;
use crate::single::units;
use crate::single::Single;
use vstd::arithmetic::power::lemma_pow1;
use vstd::arithmetic::power::lemma_pow_adds;
use vstd::arithmetic::power::pow;
use vstd::arithmetic::power2::lemma2_to64;
use vstd::arithmetic::power2::lemma_pow2_adds;
use vstd::arithmetic::power2::lemma_pow2_pos;
use vstd::arithmetic::power2::lemma_pow2_strictly_increases;
use vstd::arithmetic::power2::pow2;
use vstd::prelude::*;

verus! {

/// Whether a number is `v / scale` up to two steps of rounding and a unit of 2^-149: of
/// the same sign, and no zero unless `v` is.
pub open spec fn is_fraction(x: Single, v: int, scale: nat) -> bool {
    &&& x.is_finite()
    &&& close(apart(x.value(), 0) * scale, apart(v, 0) * pow2(149), 2, scale as int)
    &&& v > 0 <==> x.value() > 0
    &&& v < 0 <==> x.value() < 0
}

proof fn lemma_positive_fraction(v: nat, scale: nat)
    requires
        0 < v <= 0xffff_ffff,
        0 < scale <= 0xffff_ffff,
    ensures
        is_fraction(of_int(v as int).over(of_int(scale as int)), v as int, scale),
        of_int(v as int).over(of_int(scale as int)).at_least_zero(),
{
    let u = pow2(149);
    let a = of_int(v as int);
    let x = a.over(of_int(scale as int));
    lemma_pow2_pos(149);
    lemma_count(v);
    assert(v * u > 0) by (nonlinear_arith)
        requires
            v > 0,
            u > 0,
    ;
    lemma_rounding_error(v * u, 1);
    assert(a.value() == units(rounded(v * u, 1)));
    lemma_quotient_error(a, scale);
    lemma_close_through(x.value() * scale, a.value(), (v * u) as int, 1, 1, scale as int, 0);
    assert(x.value() >= 0);
    if x.value() == 0 {
        let c = PARTS as int;
        assert(0 * scale == 0) by (nonlinear_arith);
        lemma_pow1(PARTS - 1);
        lemma_pow1(PARTS + 1);
        lemma_pow_adds(PARTS - 1, 1, 1);
        lemma_pow_adds(PARTS + 1, 1, 1);
        lemma2_to64();
        lemma_pow2_strictly_increases(64, 149);
        assert((v * u) * ((c - 1) * (c - 1)) >= u * ((c - 1) * (c - 1))) by (nonlinear_arith)
            requires
                v >= 1,
                u > 0,
                c == 0x100_0000,
        ;
        assert(u * ((c - 1) * (c - 1)) > ((c + 1) * (c + 1)) * scale) by (nonlinear_arith)
            requires
                u > 0x1_0000_0000_0000_0000,
                scale <= 0xffff_ffff,
                c == 0x100_0000,
        ;
        assert(false);
    }
}

/// Fractions of a number and its opposite are opposite.
proof fn lemma_opposite_fraction(v: nat, scale: nat)
    requires
        0 < v <= 0xffff_ffff,
        0 < scale <= 0xffff_ffff,
    ensures
        ({
            let x = of_int(v as int).over(of_int(scale as int));
            let y = of_int(-(v as int)).over(of_int(scale as int));
            &&& y.magnitude() == x.magnitude()
            &&& y.is_negative()
            &&& y.value() == -x.value()
        }),
{
    let u = pow2(149);
    lemma_pow2_pos(149);
    lemma_of_int_magnitude(v as int);
    lemma_of_int_magnitude(-(v as int));
    lemma_count(v);
    lemma_count(scale);
    lemma_positive_fraction(v, scale);
    assert(-(v as int) * u < 0) by (nonlinear_arith)
        requires
            v > 0,
            u > 0,
    ;
}

proof fn lemma_fraction_of(v: int, scale: nat)
    requires
        -0xffff_ffff <= v <= 0xffff_ffff,
        0 < scale <= 0xffff_ffff,
    ensures
        is_fraction(of_int(v).over(of_int(scale as int)), v, scale),
        v == 0 ==> of_int(v).over(of_int(scale as int)) == (Single { bits: 0 }),
{
    if v > 0 {
        lemma_positive_fraction(v as nat, scale);
    } else if v < 0 {
        lemma_positive_fraction((-v) as nat, scale);
        lemma_opposite_fraction((-v) as nat, scale);
    } else {
        let n = of_int(scale as int);
        let u = pow2(149);
        lemma_count(scale);
        order_is_by_value(Single { bits: 0 }, n);
        assert(0 * u == 0 && 0 * scale == 0) by (nonlinear_arith);
        lemma_rounded_small(0, units(n.magnitude()));
        lemma_factor_of_two_steps(scale as int);
    }
}

proof fn lemma_factor_of_two_steps(slack: int)
    requires
        slack >= 0,
    ensures
        close(0, 0, 2, slack),
{
    let y = pow(PARTS + 1, 2);
    lemma_pow1(PARTS + 1);
    lemma_pow_adds(PARTS + 1, 1, 1);
    assert(y * slack >= 0) by (nonlinear_arith)
        requires
            y == (PARTS + 1) * (PARTS + 1),
            PARTS == 0x100_0000,
            slack >= 0,
    ;
    assert(0 * pow(PARTS - 1, 2) == 0) by (nonlinear_arith);
}

/// A signed 32-bit sample is its fraction of the largest one, up to rounding; its opposite
/// is the opposite fraction.
pub proof fn i32_samples_are_fractions_of_the_largest(s: i32)
    ensures
        is_fraction(fraction_i32(s), s as int, 0x7fff_ffff),
        s != i32::MIN ==> fraction_i32((-s) as i32).value() == -fraction_i32(s).value(),
{
    lemma_fraction_of(s as int, 0x7fff_ffff);
    if s > 0 {
        lemma_opposite_fraction(s as nat, 0x7fff_ffff);
    } else if s < 0 && s != i32::MIN {
        lemma_opposite_fraction((-s) as nat, 0x7fff_ffff);
    }
}

/// A signed 16-bit sample is its fraction of the largest one, up to rounding, and the lowest
/// sample is minus one; the opposite of a sample is the opposite fraction.
pub proof fn i16_samples_are_fractions_of_the_largest(s: i16)
    ensures
        s != i16::MIN ==> is_fraction(fraction_i16(s), s as int, 0x7fff),
        s != i16::MIN ==> fraction_i16((-s) as i16).value() == -fraction_i16(s).value(),
        s == i16::MIN ==> fraction_i16(s).value() == -(pow2(149) as int),
{
    i16_samples_are_normalised(s);
    lemma_full_scale();
    if s != i16::MIN {
        i16_samples_are_normalised((-s) as i16);
        lemma_fraction_of(s as int, 0x7fff);
        if s > 0 {
            lemma_opposite_fraction(s as nat, 0x7fff);
        } else if s < 0 {
            lemma_opposite_fraction((-s) as nat, 0x7fff);
        }
    }
}

/// An unsigned 16-bit sample is exactly its distance from the middle as a fraction of that:
/// the value is `(s - 32768) / 32768`.
pub proof fn u16_samples_are_exact(s: u16)
    ensures
        fraction_u16(s).is_finite(),
        fraction_u16(s).value() * 0x8000 == (s - 0x8000) * pow2(149),
{
    let u = pow2(149);
    let h = pow2(134);
    let a = of_int(s as int);
    let m = of_int(0x8000);
    let v = s - 0x8000;
    lemma2_to64();
    lemma_pow2_pos(149);
    lemma_pow2_pos(134);
    lemma_pow2_adds(15, 134);
    lemma_small_int(s as nat);
    lemma_small_int(0x8000);
    lemma_of_int_magnitude(s as int);
    lemma_of_int_magnitude(0x8000);
    lemma_of_int_magnitude(v);
    lemma_count(0x8000);
    if s > 0 {
        lemma_count(s as nat);
    } else {
        assert(0 * u == 0) by (nonlinear_arith);
    }
    assert(a.value() == s * u);
    assert(m.value() == 0x8000 * u);
    assert(s * u - 0x8000 * u == v * u) by (nonlinear_arith)
        requires
            v == s - 0x8000,
    ;
    assert(m.negated().value() == -m.value());
    let d = a.minus(m);
    assert(d == of_int(v));
    let w = apart(v, 0) as nat;
    lemma_small_int(w);
    lemma_representable(w, 134);
    assert(units(d.magnitude()) == w * u);
    let b = rounded(w * h, 1);
    let n = 0x8000 * u;
    rounding_keeps_representable(b, n);
    assert((w * u) * u == (w * h) * n) by (nonlinear_arith)
        requires
            u == 0x8000 * h,
            n == 0x8000 * u,
    ;
    let f = fraction_u16(s);
    assert(f.magnitude() == b);
    assert(v < 0 ==> v * u < 0) by (nonlinear_arith)
        requires
            u > 0,
    ;
    assert((w * h) * 0x8000 == w * u && v * u == (if v < 0 {
        -(w * u)
    } else {
        (w * u) as int
    })) by (nonlinear_arith)
        requires
            u == 0x8000 * h,
            v < 0 ==> w == -v,
            v >= 0 ==> w == v,
    ;
}

/// A quotient of whole numbers by the same one keeps their order.
proof fn lemma_fractions_keep_order(a: int, b: int, scale: nat)
    requires
        -0xffff_ffff <= a <= b <= 0xffff_ffff,
        0 < scale <= 0xffff_ffff,
    ensures
        of_int(a).over(of_int(scale as int)).rank() <= of_int(b).over(of_int(scale as int)).rank(),
{
    let n = of_int(scale as int);
    let u = pow2(149);
    lemma_count(scale);
    lemma_pow2_pos(149);
    lemma_fraction_of(a, scale);
    lemma_fraction_of(b, scale);
    let x = of_int(a).over(n);
    let y = of_int(b).over(n);
    if a >= 0 || b <= 0 {
        let p = (if a >= 0 {
            a
        } else {
            -b
        }) as nat;
        let q = (if a >= 0 {
            b
        } else {
            -a
        }) as nat;
        if 0 < p {
            lemma_count(p);
            lemma_count(q);
            assert(p * u <= q * u) by (nonlinear_arith)
                requires
                    p <= q,
            ;
            nearest_single_is_monotone((p * u) as int, (q * u) as int, 1, false, false);
            lemma_over_monotone(of_int(p as int), of_int(q as int), n);
            lemma_positive_fraction(p, scale);
            lemma_positive_fraction(q, scale);
            if a < 0 {
                lemma_opposite_fraction(p, scale);
                lemma_opposite_fraction(q, scale);
            }
        } else {
            order_is_by_value(y, x);
        }
    } else {
        order_is_by_value(y, x);
    }
}

/// Samples keep their order in every format of whole numbers.
pub proof fn samples_keep_their_order(a: i32, b: i32, c: i16, d: i16, e: u16, f: u16)
    requires
        a <= b,
        c <= d,
        e <= f,
    ensures
        fraction_i32(a).rank() <= fraction_i32(b).rank(),
        fraction_i16(c).rank() <= fraction_i16(d).rank(),
        fraction_u16(e).rank() <= fraction_u16(f).rank(),
{
    lemma_fractions_keep_order(a as int, b as int, 0x7fff_ffff);
    i16_samples_are_normalised(c);
    i16_samples_are_normalised(d);
    if c != i16::MIN {
        lemma_fractions_keep_order(c as int, d as int, 0x7fff);
    }
    let u = pow2(149);
    let x = fraction_u16(e);
    let y = fraction_u16(f);
    lemma_pow2_pos(149);
    u16_samples_are_exact(e);
    u16_samples_are_exact(f);
    assert((e - 0x8000) * u <= (f - 0x8000) * u) by (nonlinear_arith)
        requires
            e <= f,
            u > 0,
    ;
    order_is_by_value(y, x);
}

} // verus!
