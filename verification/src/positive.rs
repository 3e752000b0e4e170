//! Arithmetic on numbers from zero on: what keeps them there.
use crate::convert::of_int;
use crate::precision::order_is_by_value;
use crate::precision::rounding_is_monotone;
use crate::precision::rounding_keeps_representable;
use crate::root::floor_root;
use crate::root::lemma_floor_root;
use crate::root::lemma_root_place_bounds;
use crate::root::root_place;
use crate::root::rounded_root;
use crate::rounding::INFINITY_BITS;
use crate::single::nearest_single;
use crate::single::units;
use crate::single::Single;
use vstd::arithmetic::div_mod::lemma_div_is_ordered;
use vstd::arithmetic::div_mod::lemma_fundamental_div_mod;
use vstd::arithmetic::power2::lemma2_to64;
use vstd::arithmetic::power2::lemma2_to64_rest;
use vstd::arithmetic::power2::lemma_pow2_adds;
use vstd::arithmetic::power2::lemma_pow2_pos;
use vstd::arithmetic::power2::lemma_pow2_strictly_increases;
use vstd::arithmetic::power2::pow2;
use vstd::prelude::*;

verus! {

impl Single {
    /// Whether this is zero or above, with the sign of such a number, and no NaN.
    pub open spec fn at_least_zero(self) -> bool {
        self.bits <= INFINITY_BITS
    }
}

/// Sums stay at or above zero.
pub proof fn lemma_plus(a: Single, b: Single)
    requires
        a.at_least_zero(),
        b.at_least_zero(),
    ensures
        a.plus(b).at_least_zero(),
{
}

/// Squares are at or above zero.
pub proof fn lemma_square(x: Single)
    requires
        !x.is_nan(),
    ensures
        x.times(x).at_least_zero(),
{
    let v = x.value();
    assert(v * v >= 0) by (nonlinear_arith);
}

/// Products stay at or above zero, but for zero times infinity.
pub proof fn lemma_times(a: Single, b: Single)
    requires
        a.at_least_zero(),
        b.at_least_zero(),
        a.is_finite() && !a.is_zero(),
    ensures
        a.times(b).at_least_zero(),
{
    let v = a.value();
    let w = b.value();
    assert(v * w >= 0) by (nonlinear_arith)
        requires
            v >= 0,
            w >= 0,
    ;
}

/// A finite number differs from any number.
pub proof fn lemma_minus(a: Single, b: Single)
    requires
        a.is_finite(),
        !b.is_nan(),
    ensures
        !a.minus(b).is_nan(),
{
}

/// Quotients by a finite number above zero stay at or above zero.
pub proof fn lemma_over(a: Single, b: Single)
    requires
        a.at_least_zero(),
        b.at_least_zero(),
        b.is_finite(),
        !b.is_zero(),
    ensures
        a.over(b).at_least_zero(),
{
}

/// Roots stay at or above zero.
pub proof fn lemma_root(a: Single)
    requires
        a.at_least_zero(),
    ensures
        a.root().at_least_zero(),
{
    if a.is_finite() && !a.is_zero() {
        lemma_root_argument(a);
    }
}

/// The root of a finite number is finite.
pub(crate) proof fn lemma_root_argument(a: Single)
    requires
        a.is_finite(),
    ensures
        rounded_root(units(a.magnitude()) * pow2(149)) < INFINITY_BITS,
{
    let u = units(a.magnitude());
    let n = u * pow2(149);
    lemma_units_bound(a.magnitude());
    lemma_pow2_adds(277, 149);
    lemma_pow2_pos(149);
    assert(n < pow2(426)) by (nonlinear_arith)
        requires
            n == u * pow2(149),
            u < pow2(277),
            pow2(426) == pow2(277) * pow2(149),
            pow2(149) > 0,
    ;
    lemma_rounded_root_bound(n);
}

/// Finite magnitudes are below 2^277 units.
proof fn lemma_units_bound(b: nat)
    requires
        b < INFINITY_BITS,
    ensures
        units(b) < pow2(277),
{
    let e = b / 0x80_0000;
    let f = b % 0x80_0000;
    lemma2_to64();
    lemma_pow2_strictly_increases(24, 277);
    if e > 0 {
        let x = (e - 1) as nat;
        lemma_pow2_pos(x);
        lemma_pow2_adds(24, x);
        if x < 253 {
            lemma_pow2_strictly_increases(24 + x, 277);
        }
        assert((0x80_0000 + f) * pow2(x) < 0x100_0000 * pow2(x)) by (nonlinear_arith)
            requires
                f < 0x80_0000,
                pow2(x) > 0,
        ;
    }
}

/// Roots of finite numbers are finite.
proof fn lemma_rounded_root_bound(n: nat)
    requires
        n < pow2(426),
    ensures
        rounded_root(n) < INFINITY_BITS,
{
    let k = root_place(n);
    lemma_root_place_bounds(n);
    lemma_significand_of_root(n);
    if k > 190 {
        lemma_pow2_strictly_increases(426, (46 + 2 * k) as nat);
        assert(false);
    }
}

/// The significand of a root.
pub(crate) proof fn lemma_significand_of_root(n: nat)
    ensures
        ({
            let k = root_place(n);
            let f = 4 * n / pow2(2 * k);
            let m = (floor_root(f) + 1) / 2;
            &&& m <= 0x100_0000
            &&& k > 0 ==> m >= 0x80_0000
        }),
{
    let k = root_place(n);
    let g = pow2(2 * k);
    let f = 4 * n / g;
    let s = floor_root(f);
    lemma2_to64();
    lemma2_to64_rest();
    lemma_root_place_bounds(n);
    lemma_pow2_pos(2 * k);
    lemma_pow2_adds(50, 2 * k);
    lemma_pow2_adds(48, 2 * k);
    lemma_pow2_adds(2, 48 + 2 * k);
    lemma_fundamental_div_mod((4 * n) as int, g as int);
    assert(f < 0x4_0000_0000_0000) by (nonlinear_arith)
        requires
            g * f <= 4 * n,
            4 * n < 0x4_0000_0000_0000 * g,
            g > 0,
    ;
    lemma_floor_root(f);
    assert(s < 0x200_0000) by (nonlinear_arith)
        requires
            s * s <= f,
            f < 0x4_0000_0000_0000,
    ;
    if k > 0 {
        lemma_pow2_adds(2, (46 + 2 * k) as nat);
        assert(f >= 0x1_0000_0000_0000) by (nonlinear_arith)
            requires
                4 * n == g * f + (4 * n) % g,
                (4 * n) % g < g,
                4 * n >= 0x1_0000_0000_0000 * g,
                g > 0,
        ;
        assert(s >= 0x100_0000) by (nonlinear_arith)
            requires
                f >= 0x1_0000_0000_0000,
                f < (s + 1) * (s + 1),
        ;
    }
}

/// Roots keep order, before they take their place among the numbers.
proof fn lemma_rounded_root_monotone(a: nat, b: nat)
    requires
        a <= b,
    ensures
        rounded_root(a) <= rounded_root(b),
{
    let j = root_place(a);
    let k = root_place(b);
    lemma_root_place_bounds(a);
    lemma_root_place_bounds(b);
    lemma_significand_of_root(a);
    lemma_significand_of_root(b);
    if j > k {
        if j > k + 1 {
            lemma_pow2_strictly_increases(48 + 2 * k, (46 + 2 * j) as nat);
        }
        assert(false);
    }
    if j == k {
        let g = pow2(2 * k);
        let e = 4 * a / g;
        let f = 4 * b / g;
        let s = floor_root(e);
        let t = floor_root(f);
        lemma_pow2_pos(2 * k);
        lemma_div_is_ordered((4 * a) as int, (4 * b) as int, g as int);
        lemma_floor_root(e);
        lemma_floor_root(f);
        assert(s <= t) by (nonlinear_arith)
            requires
                s * s <= e,
                e <= f,
                f < (t + 1) * (t + 1),
        ;
    }
}

/// Roots keep order.
pub proof fn lemma_root_monotone(a: Single, b: Single)
    requires
        a.bits <= b.bits <= INFINITY_BITS,
    ensures
        a.root().at_least_zero(),
        b.root().at_least_zero(),
        a.root().bits <= b.root().bits,
{
    lemma_root(a);
    lemma_root(b);
    if 0 < a.bits && b.is_finite() {
        let v = units(a.magnitude());
        let w = units(b.magnitude());
        let u = pow2(149);
        order_is_by_value(a, b);
        lemma_root_argument(a);
        lemma_root_argument(b);
        assert(v * u <= w * u) by (nonlinear_arith)
            requires
                v <= w,
        ;
        lemma_rounded_root_monotone(v * u, w * u);
    }
}

/// A count is a finite number above zero.
pub proof fn lemma_count(n: nat)
    requires
        0 < n <= 0xffff_ffff_ffff_ffff,
    ensures
        of_int(n as int).at_least_zero(),
        of_int(n as int).is_finite(),
        !of_int(n as int).is_zero(),
{
    let one = 0x3f80_0000nat;
    let top = 0x5f80_0000nat;
    let v = n * pow2(149);
    lemma2_to64();
    lemma_pow2_pos(149);
    lemma_pow2_adds(23, 126);
    lemma_pow2_adds(23, 190);
    lemma_pow2_adds(64, 149);
    assert(units(one) == pow2(149));
    assert(units(top) == pow2(213));
    rounding_keeps_representable(one, 1);
    rounding_keeps_representable(top, 1);
    assert(pow2(149) <= v <= 0x1_0000_0000_0000_0000 * pow2(149)) by (nonlinear_arith)
        requires
            v == n * pow2(149),
            0 < n <= 0x1_0000_0000_0000_0000,
    ;
    rounding_is_monotone(units(one) * 1, 1, v, 1);
    rounding_is_monotone(v, 1, units(top) * 1, 1);
}

/// Rounding with a sign keeps order.
pub proof fn nearest_single_is_monotone(n1: int, n2: int, d: nat, zero1: bool, zero2: bool)
    requires
        d > 0,
        n1 <= n2,
    ensures
        !nearest_single(n1, d, zero1).is_nan(),
        !nearest_single(n2, d, zero2).is_nan(),
        nearest_single(n1, d, zero1).rank() <= nearest_single(n2, d, zero2).rank(),
{
    let a = if n1 < 0 {
        -n1
    } else {
        n1
    } as nat;
    let b = if n2 < 0 {
        -n2
    } else {
        n2
    } as nat;
    if a <= b {
        assert(a * d <= b * d) by (nonlinear_arith)
            requires
                a <= b,
        ;
        rounding_is_monotone(a, d, b, d);
    } else {
        assert(b * d <= a * d) by (nonlinear_arith)
            requires
                b <= a,
        ;
        rounding_is_monotone(b, d, a, d);
    }
}

} // verus!
