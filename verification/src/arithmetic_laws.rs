//! What the arithmetic of binary32 numbers gives: of every operation the number nearest
//! to the exact result.
use crate::convert::double_units;
use crate::convert::narrowed;
use crate::convert::of_int;
use crate::precision::order_is_by_value;
use crate::precision::rounding_is_nearest;
use crate::precision::rounding_keeps_representable;
use crate::precision::rounding_is_monotone;
use crate::precision::rounding_overflows_past_the_middle;
use crate::rounding::rounded;
use crate::rounding::INFINITY_BITS;
use crate::single::lemma_rounded_small;
use crate::single::nearest_single;
use crate::single::units;
use crate::single::Single;
use vstd::arithmetic::div_mod::lemma_fundamental_div_mod;
use vstd::arithmetic::div_mod::lemma_fundamental_div_mod_converse;
use vstd::arithmetic::power2::lemma_pow2_adds;
use vstd::arithmetic::power2::lemma_pow2_pos;
use vstd::arithmetic::power2::lemma_pow2_strictly_increases;
use vstd::arithmetic::power2::lemma2_to64;
use vstd::arithmetic::power2::lemma2_to64_rest;
use vstd::arithmetic::power2::pow2;
use vstd::prelude::*;

verus! {

/// How far apart two whole numbers are.
pub open spec fn apart(a: int, b: int) -> int {
    if a < b {
        b - a
    } else {
        a - b
    }
}

/// Whether `r` is the result of rounding `n / d` units of 2^-149, as far as another number
/// `z` can tell: it is no NaN, infinite exactly if the quotient lies halfway or more from
/// the largest finite number to the next power of two, of the sign of the quotient, and
/// else no farther from it than `z`.
pub open spec fn rounds(n: int, d: nat, r: Single, z: Single) -> bool {
    &&& !r.is_nan()
    &&& r.is_infinite() <==> 2 * apart(n, 0) >= d * (0x1ff_ffff * pow2(253))
    &&& n > 0 ==> !r.is_negative()
    &&& n < 0 ==> r.is_negative()
    &&& r.is_finite() && z.is_finite() ==> apart(n, d * r.value()) <= apart(n, d * z.value())
}

/// The number nearest to a quotient.
proof fn lemma_rounds(n: int, d: nat, zero_negative: bool, z: Single)
    requires
        d > 0,
    ensures
        rounds(n, d, nearest_single(n, d, zero_negative), z),
{
    let a = apart(n, 0) as nat;
    let r = nearest_single(n, d, zero_negative);
    let k = 0x1ff_ffff * pow2(253);
    lemma_pow2_pos(253);
    rounding_overflows_past_the_middle(a, d);
    assert(d * k > 0) by (nonlinear_arith)
        requires
            d > 0,
            k > 0,
    ;
    if n == 0 {
        assert(r.value() == 0);
        assert(d * 0 == 0) by (nonlinear_arith);
    } else {
        assert(r.magnitude() == rounded(a, d));
        if r.is_finite() && z.is_finite() {
            let u = units(r.magnitude());
            let v = units(z.magnitude());
            assert(d * (-(u as int)) == -(d * u) && d * (-(v as int)) == -(d * v) && d * v >= 0 && d * 0
                == 0) by (nonlinear_arith)
                requires
                    d >= 0,
                    v >= 0,
            ;
            rounding_is_nearest(a, d, z.magnitude());
            rounding_is_nearest(a, d, 0);
            assert(units(0) == 0);
        }
    }
}

/// A sum, and so a difference, of finite numbers is the number nearest to the exact one.
pub proof fn sums_are_rounded_to_nearest(a: Single, b: Single, z: Single)
    requires
        a.is_finite(),
        b.is_finite(),
    ensures
        rounds(a.value() + b.value(), 1, a.plus(b), z),
        rounds(a.value() - b.value(), 1, a.minus(b), z),
        b.negated().value() == -b.value(),
{
    lemma_rounds(
        a.value() + b.value(),
        1,
        a.is_negative() && b.is_negative(),
        z,
    );
    assert(b.negated().value() == -b.value());
    lemma_rounds(
        a.value() - b.value(),
        1,
        a.is_negative() && b.negated().is_negative(),
        z,
    );
}

/// A product of finite numbers is the number nearest to the exact one, and so is a product
/// to which a finite number is added in the same step.
pub proof fn products_are_rounded_to_nearest(a: Single, b: Single, c: Single, z: Single)
    requires
        a.is_finite(),
        b.is_finite(),
        c.is_finite(),
    ensures
        rounds(a.value() * b.value(), pow2(149), a.times(b), z),
        rounds(a.value() * b.value() + c.value() * pow2(149), pow2(149), a.fused(b, c), z),
{
    let negative = a.is_negative() != b.is_negative();
    lemma_pow2_pos(149);
    lemma_rounds(a.value() * b.value(), pow2(149), negative, z);
    lemma_rounds(
        a.value() * b.value() + c.value() * pow2(149),
        pow2(149),
        negative && c.is_negative(),
        z,
    );
}

/// A quotient of finite numbers is the number nearest to the exact one. The divisor is
/// given by its size, and its sign to the dividend.
pub proof fn quotients_are_rounded_to_nearest(a: Single, b: Single, z: Single)
    requires
        a.is_finite(),
        b.is_finite(),
        !b.is_zero(),
    ensures
        ({
            let n = (if b.is_negative() {
                -a.value()
            } else {
                a.value()
            }) * pow2(149);
            rounds(n, units(b.magnitude()), a.over(b), z)
        }),
{
    let d = units(b.magnitude());
    let v = if b.is_negative() {
        -a.value()
    } else {
        a.value()
    };
    let u = pow2(149);
    let n = v * u;
    let m = units(a.magnitude());
    lemma_pow2_pos(149);
    order_is_by_value(Single { bits: 0 }, Single { bits: b.magnitude() as u32 });
    order_is_by_value(Single { bits: 0 }, Single { bits: a.magnitude() as u32 });
    assert(v > 0 ==> n > 0) by (nonlinear_arith)
        requires
            n == v * u,
            u > 0,
    ;
    assert(v < 0 ==> n < 0) by (nonlinear_arith)
        requires
            n == v * u,
            u > 0,
    ;
    assert(v == 0 ==> n == 0) by (nonlinear_arith)
        requires
            n == v * u,
    ;
    assert(v == m ==> n == m * u) by (nonlinear_arith)
        requires
            n == v * u,
    ;
    assert(v == -m ==> n == -(m * u)) by (nonlinear_arith)
        requires
            n == v * u,
    ;
    let negative = a.is_negative() != b.is_negative();
    lemma_rounds(n, d, negative, z);
    if m == 0 {
        assert(0 * u == 0) by (nonlinear_arith);
        lemma_rounded_small(0, d);
    }
    assert(a.over(b) == nearest_single(n, d, negative));
}

/// A whole number is held as the number nearest to it.
pub proof fn whole_numbers_are_rounded_to_nearest(v: int, z: Single)
    ensures
        rounds(v * pow2(149), 1, of_int(v), z),
{
    lemma_rounds(v * pow2(149), 1, false, z);
}

/// What order is where numbers are not finite, and what it is to be held in a range: a
/// number within the range stays, one beyond it becomes the end that it lies beyond, and
/// a NaN stays.
pub proof fn order_and_ranges(a: Single, b: Single, low: Single, high: Single)
    requires
        !low.is_nan(),
        !high.is_nan(),
        low.rank() <= high.rank(),
    ensures
        a.is_nan() || b.is_nan() ==> !a.below(b),
        a.is_infinite() && !a.is_negative() ==> !a.below(b),
        b.is_infinite() && b.is_negative() ==> !a.below(b),
        a.is_finite() && b.is_infinite() ==> (a.below(b) <==> !b.is_negative()),
        a.is_infinite() && b.is_finite() ==> (a.below(b) <==> a.is_negative()),
        a.below(low) ==> a.clamped(low, high) == low,
        high.below(a) ==> a.clamped(low, high) == high,
        !a.below(low) && !high.below(a) ==> a.clamped(low, high) == a,
        a.is_nan() ==> a.clamped(low, high) == a,
{
}

/// What is not a number stays so, and infinity is beyond every finite number.
pub proof fn special_numbers_go_through(a: Single, b: Single)
    ensures
        a.is_nan() || b.is_nan() ==> a.plus(b).is_nan() && a.minus(b).is_nan() && a.times(
            b,
        ).is_nan() && a.over(b).is_nan(),
        a.is_nan() ==> a.root().is_nan(),
        a.is_infinite() && b.is_finite() ==> a.plus(b) == a && b.plus(a) == a && a.minus(b) == a,
        a.is_infinite() && b.is_finite() && !b.is_zero() ==> a.times(b).is_infinite() && b.times(
            a,
        ).is_infinite() && a.over(b).is_infinite() && b.over(a).is_zero(),
        a.is_infinite() && !a.is_negative() ==> a.root() == a && a.plus(a) == a && a.times(a) == a,
        a.is_zero() ==> a.root() == a,
        a.is_negative() && !a.is_zero() ==> a.root().is_nan(),
{
}

/// The whole part of a number that is not below zero is the greatest whole number that is
/// not above it, as long as that is an index.
pub proof fn the_whole_part_is_not_above(a: Single)
    requires
        a.is_finite(),
    ensures
        a.value() <= 0 ==> a.whole_part() == 0,
        a.value() >= 0 && a.whole_part() < usize::MAX ==> a.whole_part() * pow2(149) <= a.value()
            < (a.whole_part() + 1) * pow2(149),
        a.value() >= 0 && a.whole_part() == usize::MAX ==> a.value() >= usize::MAX * pow2(149),
        a.whole_part() <= usize::MAX,
{
    let p = pow2(149) as int;
    let v = units(a.magnitude()) as int;
    lemma_pow2_pos(149);
    order_is_by_value(Single { bits: 0 }, a);
    lemma_fundamental_div_mod(v, p);
    let q = v / p;
    assert(q * p <= v < (q + 1) * p) by (nonlinear_arith)
        requires
            v == p * q + v % p,
            0 <= v % p < p,
    ;
    if a.value() >= 0 && q > usize::MAX {
        assert(v >= usize::MAX * p) by (nonlinear_arith)
            requires
                v >= q * p,
                q > usize::MAX,
                p > 0,
        ;
    }
    if a.value() == 0 {
        assert(v == 0);
        lemma_fundamental_div_mod_converse(0, p, 0, 0);
    }
}

/// A binary64 number is narrowed to the nearest binary32 number.
pub proof fn binary64_numbers_are_rounded_to_nearest(magnitude: u64, z: Single)
    requires
        0 < magnitude < 0x7ff0_0000_0000_0000,
    ensures
        rounds(double_units(magnitude as nat) as int, pow2(925), narrowed(magnitude), z),
        rounds(
            -(double_units(magnitude as nat) as int),
            pow2(925),
            narrowed((0x8000_0000_0000_0000 + magnitude) as u64),
            z,
        ),
        double_units(magnitude as nat) > 0,
{
    let n = double_units(magnitude as nat) as int;
    lemma_pow2_pos(925);
    lemma_double_units_increase(0, magnitude as nat);
    lemma_rounds(n, pow2(925), false, z);
    lemma_rounds(-n, pow2(925), true, z);
}

/// A larger binary64 magnitude has more units.
proof fn lemma_double_units_increase(a: nat, b: nat)
    requires
        a < b,
    ensures
        double_units(a) < double_units(b),
{
    let w = 0x10_0000_0000_0000nat;
    let i = a / w;
    let j = b / w;
    let f = a % w;
    let g = b % w;
    lemma_fundamental_div_mod(a as int, w as int);
    lemma_fundamental_div_mod(b as int, w as int);
    lemma2_to64();
    lemma2_to64_rest();
    if i == j {
        if i > 0 {
            let s = pow2((i - 1) as nat);
            lemma_pow2_pos((i - 1) as nat);
            assert((w + f) * s < (w + g) * s) by (nonlinear_arith)
                requires
                    f < g,
                    s > 0,
            ;
        }
    } else {
        let t = pow2((j - 1) as nat);
        lemma_pow2_pos((j - 1) as nat);
        assert((w + g) * t >= w * t) by (nonlinear_arith)
            requires
                t > 0,
        ;
        if i == 0 {
            assert(w * t >= w) by (nonlinear_arith)
                requires
                    t >= 1,
            ;
        } else {
            let s = pow2((i - 1) as nat);
            lemma_pow2_pos((i - 1) as nat);
            lemma_pow2_adds(1, (i - 1) as nat);
            if i < j - 1 {
                lemma_pow2_strictly_increases(i, (j - 1) as nat);
            }
            assert((w + f) * s < w * t) by (nonlinear_arith)
                requires
                    f < w,
                    t >= 2 * s,
                    s > 0,
            ;
        }
    }
}

/// The pattern of the binary64 number with the value of a binary32 number, for numbers
/// with a leading bit: the exponent is counted from another end, and the fraction has 29
/// more digits.
pub open spec fn widened(x: Single) -> int {
    let sign = if x.is_negative() {
        0x8000_0000_0000_0000int
    } else {
        0
    };
    let exponent = x.magnitude() / 0x80_0000;
    let fraction = x.magnitude() % 0x80_0000;
    sign + (exponent + 896) * 0x10_0000_0000_0000 + fraction * 0x2000_0000
}

/// A number that is written as a binary64 number and narrowed again is the same, and
/// narrowing keeps the order of magnitudes and the sign: so every binary64 number between
/// two that are written so is narrowed to a number between theirs.
pub proof fn narrowing_gives_back_what_was_widened(x: Single, a: u64, b: u64)
    requires
        x.is_finite(),
        x.magnitude() >= 0x80_0000,
        a <= b <= 0x7ff0_0000_0000_0000,
    ensures
        0 <= widened(x) <= u64::MAX,
        narrowed(widened(x) as u64) == x,
        narrowed(0).bits == 0,
        narrowed(0x8000_0000_0000_0000) == (Single { bits: 0x8000_0000 }),
        narrowed(a).bits <= narrowed(b).bits <= INFINITY_BITS,
        narrowed((0x8000_0000_0000_0000 + a) as u64).bits == narrowed(a).bits + 0x8000_0000,
{
    let e = x.magnitude() / 0x80_0000;
    let f = x.magnitude() % 0x80_0000;
    let w = 0x10_0000_0000_0000nat;
    let m = ((e + 896) * w + f * 0x2000_0000) as nat;
    let d = pow2(925);
    lemma2_to64();
    lemma_pow2_pos(925);
    lemma_fundamental_div_mod(x.magnitude() as int, 0x80_0000);
    assert(1 <= e <= 254);
    lemma_fundamental_div_mod_converse(m as int, w as int, (e + 896) as int, (f * 0x2000_0000) as int);
    let s = pow2((e - 1) as nat);
    let t = pow2((e + 895) as nat);
    lemma_pow2_adds(29, (e + 895) as nat);
    lemma_pow2_adds((e - 1) as nat, 925);
    assert(29 + (e + 895) == (e - 1) + 925);
    let h = 0x80_0000 + f;
    assert((w + f * 0x2000_0000) * t == (h * s) * d) by (nonlinear_arith)
        requires
            w + f * 0x2000_0000 == h * 0x2000_0000,
            0x2000_0000 * t == s * d,
    ;
    assert(double_units(m) == units(x.magnitude()) * d);
    rounding_keeps_representable(x.magnitude(), d);
    lemma_rounded_small(0, d);
    if a < b && b < 0x7ff0_0000_0000_0000 {
        let p = double_units(a as nat);
        let q = double_units(b as nat);
        lemma_double_units_increase(a as nat, b as nat);
        assert(p * d <= q * d) by (nonlinear_arith)
            requires
                p <= q,
        ;
        rounding_is_monotone(p, d, q, d);
    }
}

} // verus!
