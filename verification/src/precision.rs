//! What rounding to binary32 guarantees.
use crate::root::floor_root;
use crate::root::lemma_floor_root;
use crate::root::lemma_root_place_bounds;
use crate::root::root_place;
use crate::root::rounded_root;
use crate::rounding::last_place;
use crate::rounding::lemma_last_place;
use crate::rounding::lemma_last_place_unique;
use crate::rounding::nearest;
use crate::rounding::rounded;
use crate::rounding::INFINITY_BITS;
use crate::single::units;
use crate::single::Single;
use vstd::arithmetic::div_mod::lemma_fundamental_div_mod;
use vstd::arithmetic::div_mod::lemma_fundamental_div_mod_converse;
use vstd::arithmetic::power2::lemma2_to64;
use vstd::arithmetic::power2::lemma2_to64_rest;
use vstd::arithmetic::power2::lemma_pow2_adds;
use vstd::arithmetic::power2::lemma_pow2_pos;
use vstd::arithmetic::power2::lemma_pow2_strictly_increases;
use vstd::arithmetic::power2::lemma_pow2_unfold;
use vstd::arithmetic::power2::pow2;
use vstd::prelude::*;

verus! {

/// The distance between two natural numbers.
pub open spec fn distance(a: nat, b: nat) -> int {
    if a < b {
        b - a
    } else {
        a - b
    }
}

/// What determines the nearest whole number.
pub(crate) proof fn lemma_nearest(n: nat, d: nat)
    requires
        d > 0,
    ensures
        ({
            let q = nearest(n, d);
            &&& (2 * q - 1) * d <= 2 * n <= (2 * q + 1) * d
            &&& 2 * n == (2 * q + 1) * d ==> q % 2 == 0
            &&& 2 * n == (2 * q - 1) * d ==> q % 2 == 0
        }),
{
    let f = n / d;
    let r = n % d;
    lemma_fundamental_div_mod(n as int, d as int);
    assert((2 * f + 1) * d == 2 * (d * f) + d) by (nonlinear_arith);
    assert((2 * f - 1) * d == 2 * (d * f) - d) by (nonlinear_arith);
    assert((2 * (f + 1) - 1) * d == 2 * (d * f) + d) by (nonlinear_arith);
    assert((2 * (f + 1) + 1) * d == 2 * (d * f) + 3 * d) by (nonlinear_arith);
}

/// A larger quotient has no smaller nearest whole number.
proof fn lemma_nearest_monotone(n1: nat, d1: nat, n2: nat, d2: nat)
    requires
        d1 > 0,
        d2 > 0,
        n1 * d2 <= n2 * d1,
    ensures
        nearest(n1, d1) <= nearest(n2, d2),
{
    let q1 = nearest(n1, d1);
    let q2 = nearest(n2, d2);
    lemma_nearest(n1, d1);
    lemma_nearest(n2, d2);
    if q1 > q2 {
        let a = 2 * q1 - 1;
        let b = 2 * q2 + 1;
        assert(a >= b);
        // a / 1 <= 2 n1 / d1 <= 2 n2 / d2 <= b
        assert(a == b && 2 * n1 == a * d1 && 2 * n2 == b * d2) by (nonlinear_arith)
            requires
                a * d1 <= 2 * n1,
                2 * n2 <= b * d2,
                n1 * d2 <= n2 * d1,
                a >= b,
                d1 > 0,
                d2 > 0,
        {
            assert(a * d1 * d2 <= 2 * n1 * d2);
            assert(2 * n2 * d1 <= b * d2 * d1);
            assert(2 * n1 * d2 <= 2 * n2 * d1);
            assert(d1 * d2 > 0);
            assert(a * (d1 * d2) <= b * (d1 * d2));
            assert(a <= b);
        }
        assert(q1 % 2 == 0 && q2 % 2 == 0);
        assert(q1 == q2 + 1);
    }
}

/// A significand of a value within its place.
pub(crate) proof fn lemma_significand(n: nat, d: nat)
    requires
        d > 0,
    ensures
        ({
            let k = last_place(n, d);
            let q = nearest(n, d * pow2(k));
            &&& d * pow2(k) > 0
            &&& q <= 0x100_0000
            &&& k > 0 ==> q >= 0x80_0000
        }),
{
    let k = last_place(n, d);
    let s = pow2(k);
    let dk = d * s;
    lemma_last_place(n, d);
    lemma_pow2_pos(k);
    lemma2_to64();
    assert(dk > 0) by (nonlinear_arith)
        requires
            dk == d * s,
            d > 0,
            s > 0,
    ;
    lemma_pow2_adds(24, k);
    assert(d * (0x100_0000 * s) == 0x100_0000 * dk) by (nonlinear_arith)
        requires
            dk == d * s,
    ;
    lemma_nearest_whole(0x100_0000, dk);
    assert(n * dk <= (0x100_0000 * dk) * dk) by (nonlinear_arith)
        requires
            n <= 0x100_0000 * dk,
    ;
    lemma_nearest_monotone(n, dk, 0x100_0000 * dk, dk);
    if k > 0 {
        lemma_pow2_adds(23, k);
        assert(d * (0x80_0000 * s) == 0x80_0000 * dk) by (nonlinear_arith)
            requires
                dk == d * s,
        ;
        lemma_nearest_whole(0x80_0000, dk);
        assert((0x80_0000 * dk) * dk <= n * dk) by (nonlinear_arith)
            requires
                0x80_0000 * dk <= n,
        ;
        lemma_nearest_monotone(0x80_0000 * dk, dk, n, dk);
    }
}

/// A whole number is its own nearest.
pub(crate) proof fn lemma_nearest_whole(q: nat, d: nat)
    requires
        d > 0,
    ensures
        nearest(q * d, d) == q,
{
    lemma_fundamental_div_mod_converse((q * d) as int, d as int, q as int, 0);
}

/// The units of magnitude bits put together from a place and a significand.
pub(crate) proof fn lemma_units_at(k: nat, q: nat)
    requires
        q <= 0x100_0000,
        k > 0 ==> q >= 0x80_0000,
    ensures
        units(k * 0x80_0000 + q) == q * pow2(k),
{
    let b = k * 0x80_0000 + q;
    lemma2_to64();
    if q < 0x80_0000 {
        lemma_fundamental_div_mod_converse(b as int, 0x80_0000, 0, q as int);
        assert(q * pow2(0) == q) by (nonlinear_arith)
            requires
                pow2(0) == 1,
        ;
    } else if q < 0x100_0000 {
        lemma_fundamental_div_mod_converse(b as int, 0x80_0000, k as int + 1, q - 0x80_0000);
    } else {
        lemma_fundamental_div_mod_converse(b as int, 0x80_0000, k as int + 2, 0);
        lemma_pow2_unfold(k + 1);
        let f = b % 0x80_0000;
        assert((0x80_0000 + f) * pow2(k + 1) == q * pow2(k)) by (nonlinear_arith)
            requires
                f == 0,
                q == 0x100_0000,
                pow2(k + 1) == 2 * pow2(k),
        ;
    }
}

/// Numbers of at most 24 binary digits are represented exactly.
pub(crate) proof fn lemma_representable(i: nat, e: nat)
    requires
        i < 0x100_0000,
        e <= 149,
    ensures
        units(rounded(i * pow2(e), 1)) == i * pow2(e),
        rounded(i * pow2(e), 1) < INFINITY_BITS,
{
    let u = pow2(e);
    let n = i * u;
    let k = last_place(n, 1);
    let s = pow2(k);
    lemma_pow2_pos(e);
    lemma_pow2_pos(k);
    lemma2_to64();
    lemma_pow2_adds(24, e);
    assert(n < 0x100_0000 * u) by (nonlinear_arith)
        requires
            n == i * u,
            i < 0x100_0000,
            u > 0,
    ;
    lemma_last_place(n, 1);
    if k > e {
        if k > e + 1 {
            lemma_pow2_strictly_increases(24 + e, (23 + k) as nat);
        }
        assert(false);
    }
    let t = pow2((e - k) as nat);
    lemma_pow2_adds((e - k) as nat, k);
    assert(n == (i * t) * s) by (nonlinear_arith)
        requires
            n == i * u,
            u == t * s,
    ;
    assert(1 * s == s);
    lemma_nearest_whole(i * t, s);
    lemma_significand(n, 1);
    lemma_units_at(k, i * t);
}

/// Whole numbers of at most 24 binary digits are represented exactly.
pub(crate) proof fn lemma_small_int(i: nat)
    requires
        i < 0x100_0000,
    ensures
        units(rounded(i * pow2(149), 1)) == i * pow2(149),
        rounded(i * pow2(149), 1) < INFINITY_BITS,
{
    lemma_representable(i, 149);
}

/// Every finite magnitude is put together from a place and a significand.
proof fn lemma_place_of(b: nat) -> (r: (nat, nat))
    ensures
        b == r.0 * 0x80_0000 + r.1,
        r.1 < 0x100_0000,
        r.0 > 0 ==> r.1 >= 0x80_0000,
        units(b) == r.1 * pow2(r.0),
{
    let e = b / 0x80_0000;
    let f = b % 0x80_0000;
    lemma_fundamental_div_mod(b as int, 0x80_0000);
    let r = if e == 0 {
        (0, f)
    } else {
        ((e - 1) as nat, 0x80_0000 + f)
    };
    lemma_units_at(r.0, r.1);
    r
}

/// Rounding keeps order: a larger exact value has no smaller result.
pub proof fn rounding_is_monotone(n1: nat, d1: nat, n2: nat, d2: nat)
    requires
        d1 > 0,
        d2 > 0,
        n1 * d2 <= n2 * d1,
    ensures
        rounded(n1, d1) <= rounded(n2, d2),
{
    let k1 = last_place(n1, d1);
    let k2 = last_place(n2, d2);
    lemma_last_place(n1, d1);
    lemma_last_place(n2, d2);
    lemma_significand(n1, d1);
    lemma_significand(n2, d2);
    if k1 > k2 {
        let a = pow2((23 + k1) as nat);
        let b = pow2(24 + k2);
        if 24 + k2 < 23 + k1 {
            lemma_pow2_strictly_increases(24 + k2, (23 + k1) as nat);
        }
        assert(false) by (nonlinear_arith)
            requires
                n1 >= d1 * a,
                n2 < d2 * b,
                b <= a,
                n1 * d2 <= n2 * d1,
                d1 > 0,
                d2 > 0,
        {
            assert(n1 * d2 >= (d1 * a) * d2);
            assert(n2 * d1 < (d2 * b) * d1);
            assert((d1 * a) * d2 == (d1 * d2) * a);
            assert((d2 * b) * d1 == (d1 * d2) * b);
            assert((d1 * d2) * b <= (d1 * d2) * a);
        }
    } else if k1 == k2 {
        let s = pow2(k1);
        assert(n1 * (d2 * s) <= n2 * (d1 * s)) by (nonlinear_arith)
            requires
                n1 * d2 <= n2 * d1,
        ;
        lemma_nearest_monotone(n1, d1 * s, n2, d2 * s);
    }
}

/// A finite binary32 value rounds to itself.
pub proof fn rounding_keeps_representable(b: nat, d: nat)
    requires
        d > 0,
        b < INFINITY_BITS,
    ensures
        rounded(units(b) * d, d) == b,
{
    let (k, q) = lemma_place_of(b);
    let s = pow2(k);
    let n = units(b) * d;
    lemma2_to64();
    lemma_pow2_pos(k);
    lemma_pow2_adds(24, k);
    assert(n < d * (0x100_0000 * s)) by (nonlinear_arith)
        requires
            n == (q * s) * d,
            q < 0x100_0000,
            d > 0,
            s > 0,
    {
        assert((q * s) * d == q * (s * d));
        assert(s * d > 0);
        assert(q * (s * d) < 0x100_0000 * (s * d));
        assert(0x100_0000 * (s * d) == d * (0x100_0000 * s));
    }
    if k > 0 {
        lemma_pow2_adds(23, k);
        assert(n >= d * (0x80_0000 * s)) by (nonlinear_arith)
            requires
                n == (q * s) * d,
                q >= 0x80_0000,
        {
            assert((q * s) * d == q * (s * d));
            assert(q * (s * d) >= 0x80_0000 * (s * d));
            assert(0x80_0000 * (s * d) == d * (0x80_0000 * s));
        }
    }
    lemma_last_place_unique(n, d, k);
    assert(n == q * (d * s)) by (nonlinear_arith)
        requires
            n == (q * s) * d,
    ;
    assert(d * s > 0) by (nonlinear_arith)
        requires
            d > 0,
            s > 0,
    ;
    lemma_nearest_whole(q, d * s);
}

/// A finite result is as close to the exact value as any binary32 value: no other
/// finite magnitude lies nearer to `n / d`.
pub proof fn rounding_is_nearest(n: nat, d: nat, b: nat)
    requires
        d > 0,
        rounded(n, d) < INFINITY_BITS,
        b < INFINITY_BITS,
    ensures
        distance(n, d * units(rounded(n, d))) <= distance(n, d * units(b)),
{
    let k = last_place(n, d);
    let s = pow2(k);
    let dk = d * s;
    let q = nearest(n, dk);
    lemma_significand(n, d);
    lemma_units_at(k, q);
    lemma_last_place(n, d);
    lemma2_to64();
    lemma_pow2_pos(k);
    let r = rounded(n, d);
    assert(d * units(r) == q * dk) by (nonlinear_arith)
        requires
            units(r) == q * s,
            dk == d * s,
    ;
    let (j, m) = lemma_place_of(b);
    if j >= k {
        // The other value is a multiple of the same step.
        let t = pow2((j - k) as nat);
        lemma_pow2_adds(k, (j - k) as nat);
        let v = m * t;
        assert(d * units(b) == v * dk) by (nonlinear_arith)
            requires
                units(b) == m * (s * t),
                v == m * t,
                dk == d * s,
        ;
        lemma_nearest_multiple(n, dk, v);
    } else {
        // The other value lies below the least significand of this place.
        let v = 0x80_0000nat;
        lemma_pow2_adds(23, k);
        lemma_pow2_adds(24, j);
        if 24 + j < 23 + k {
            lemma_pow2_strictly_increases(24 + j, (23 + k) as nat);
        }
        lemma_pow2_pos(j);
        assert(units(b) <= v * s) by (nonlinear_arith)
            requires
                units(b) == m * pow2(j),
                m < 0x100_0000,
                0x100_0000 * pow2(j) <= v * s,
                pow2(j) > 0,
        ;
        assert(d * units(b) <= v * dk) by (nonlinear_arith)
            requires
                units(b) <= v * s,
                dk == d * s,
        ;
        assert(v * dk <= n) by (nonlinear_arith)
            requires
                n >= d * (v * s),
                dk == d * s,
        ;
        lemma_nearest_multiple(n, dk, v);
    }
}

/// No multiple of `d` lies nearer to `n` than the nearest one.
proof fn lemma_nearest_multiple(n: nat, d: nat, v: nat)
    requires
        d > 0,
    ensures
        distance(n, nearest(n, d) * d) <= distance(n, v * d),
{
    let q = nearest(n, d);
    lemma_nearest(n, d);
    assert((2 * q - 1) * d == 2 * (q * d) - d) by (nonlinear_arith);
    assert((2 * q + 1) * d == 2 * (q * d) + d) by (nonlinear_arith);
    if v < q {
        assert(v * d <= q * d - d) by (nonlinear_arith)
            requires
                v + 1 <= q,
                d > 0,
        ;
    }
    if v > q {
        assert(v * d >= q * d + d) by (nonlinear_arith)
            requires
                v >= q + 1,
                d > 0,
        ;
    }
}

/// A result is infinite exactly from halfway between the largest finite value,
/// (2^24 - 1) * 2^253 units, and the next power of two.
pub proof fn rounding_overflows_past_the_middle(n: nat, d: nat)
    requires
        d > 0,
    ensures
        rounded(n, d) == INFINITY_BITS <==> 2 * n >= d * (0x1ff_ffff * pow2(253)),
{
    let s = pow2(253);
    let mid = 0x1ff_ffff * s;
    lemma2_to64();
    lemma_pow2_pos(253);
    lemma_pow2_adds(24, 253);
    lemma_pow2_adds(23, 253);
    // The middle itself, as the quotient mid / 2.
    assert(mid < 2 * (0x100_0000 * s) && mid >= 2 * (0x80_0000 * s)) by (nonlinear_arith)
        requires
            mid == 0x1ff_ffff * s,
            s > 0,
    ;
    lemma_last_place_unique(mid, 2, 253);
    assert(mid == (2 * s) * 0xff_ffff + s) by (nonlinear_arith)
        requires
            mid == 0x1ff_ffff * s,
    ;
    lemma_fundamental_div_mod_converse(mid as int, (2 * s) as int, 0xff_ffff, s as int);
    assert(nearest(mid, 2 * s) == 0x100_0000);
    assert(rounded(mid, 2) == INFINITY_BITS);
    if 2 * n >= d * mid {
        assert(mid * d <= n * 2) by (nonlinear_arith)
            requires
                2 * n >= d * mid,
        ;
        rounding_is_monotone(mid, 2, n, d);
    } else {
        let k = last_place(n, d);
        let q = nearest(n, d * pow2(k));
        lemma_last_place(n, d);
        lemma_significand(n, d);
        if k > 253 {
            let a = pow2((23 + k) as nat);
            if 277 < 23 + k {
                lemma_pow2_strictly_increases(277, (23 + k) as nat);
            }
            assert(false) by (nonlinear_arith)
                requires
                    n >= d * a,
                    2 * a >= mid,
                    2 * n < d * mid,
                    d > 0,
            {
                assert(2 * (d * a) == d * (2 * a));
                assert(d * (2 * a) >= d * mid);
            }
        }
        if k == 253 {
            let dk = d * s;
            lemma_nearest(n, dk);
            assert(d * mid == 0x1ff_ffff * dk) by (nonlinear_arith)
                requires
                    mid == 0x1ff_ffff * s,
                    dk == d * s,
            ;
            if q == 0x100_0000 {
                assert((2 * q - 1) * dk == 0x1ff_ffff * dk);
            }
        }
    }
}

/// A larger magnitude has more units.
proof fn lemma_units_increase(a: nat, b: nat)
    requires
        a < b,
    ensures
        units(a) < units(b),
    decreases b - a,
{
    let c = (b - 1) as nat;
    let (k, q) = lemma_place_of(c);
    lemma_units_at(k, q + 1);
    lemma_pow2_pos(k);
    assert(q * pow2(k) < (q + 1) * pow2(k)) by (nonlinear_arith)
        requires
            pow2(k) > 0,
    ;
    if a < c {
        lemma_units_increase(a, c);
    }
}

/// Below 128 the next magnitude is less than a whole unit of the value away.
pub proof fn lemma_next_units(b: nat)
    requires
        b < 0x4300_0000,
    ensures
        units(b + 1) <= units(b) + pow2(149),
{
    let (k, q) = lemma_place_of(b);
    lemma_units_at(k, q + 1);
    assert((q + 1) * pow2(k) == q * pow2(k) + pow2(k)) by (nonlinear_arith);
    if k < 149 {
        lemma_pow2_strictly_increases(k, 149);
    }
}

/// The magnitude before another one is away from it by 2^-24 of its value or more.
pub(crate) proof fn lemma_gap_below(b: nat)
    requires
        b > 0,
    ensures
        (units(b) - units((b - 1) as nat)) * 0x100_0000 >= units(b),
{
    let (k, q) = lemma_place_of((b - 1) as nat);
    lemma_units_at(k, q + 1);
    assert((q + 1) * pow2(k) == q * pow2(k) + pow2(k)) by (nonlinear_arith);
    assert((q + 1) * pow2(k) <= 0x100_0000 * pow2(k)) by (nonlinear_arith)
        requires
            q + 1 <= 0x100_0000,
    ;
}

/// Finite numbers are ordered by their values.
pub proof fn order_is_by_value(a: Single, b: Single)
    requires
        a.is_finite(),
        b.is_finite(),
    ensures
        a.below(b) <==> a.value() < b.value(),
        a.rank() == b.rank() <==> a.value() == b.value(),
{
    let x = a.magnitude();
    let y = b.magnitude();
    if x < y {
        lemma_units_increase(x, y);
    }
    if y < x {
        lemma_units_increase(y, x);
    }
    if x > 0 {
        lemma_units_increase(0, x);
    }
    if y > 0 {
        lemma_units_increase(0, y);
    }
    assert(units(0) == 0);
}

/// The square root is rounded to nearest: the exact root of `n` lies within half
/// a step of the result, where a step is that of the result's last place.
pub proof fn root_is_nearest(n: nat)
    requires
        n >= 0x4000_0000_0000,
    ensures
        ({
            let u = 2 * units(rounded_root(n));
            let half = pow2(root_place(n));
            &&& half <= u
            &&& (u - half) * (u - half) <= 4 * n < (u + half) * (u + half)
        }),
{
    let k = root_place(n);
    let h = pow2(k);
    let g = pow2(2 * k);
    let f = 4 * n / g;
    let s = floor_root(f);
    let m = (s + 1) / 2;
    lemma_pow2_pos(k);
    lemma_pow2_pos(2 * k);
    lemma_pow2_adds(k, k);
    lemma_floor_root(f);
    lemma_root_place_bounds(n);
    lemma_fundamental_div_mod((4 * n) as int, g as int);
    // The significand has its leading bit.
    lemma_pow2_adds(48, 2 * k);
    lemma2_to64();
    lemma2_to64_rest();
    assert(0x1_0000_0000_0000 * g <= 4 * n < 0x4_0000_0000_0000 * g) by {
        lemma_pow2_adds(2, 48 + 2 * k);
        if k > 0 {
            lemma_pow2_adds(2, (46 + 2 * k) as nat);
        }
    }
    assert(f * g <= 4 * n < (f + 1) * g) by (nonlinear_arith)
        requires
            4 * n == g * f + (4 * n) % g,
            0 <= (4 * n) % g < g,
    ;
    assert(0x1_0000_0000_0000 <= f < 0x4_0000_0000_0000) by (nonlinear_arith)
        requires
            0x1_0000_0000_0000 * g <= 4 * n < 0x4_0000_0000_0000 * g,
            4 * n < (f + 1) * g,
            f * g <= 4 * n,
            g > 0,
    ;
    let c = 0x100_0000nat;
    assert(s >= c) by (nonlinear_arith)
        requires
            c == 0x100_0000,
            f >= 0x1_0000_0000_0000,
            f < (s + 1) * (s + 1),
    ;
    assert(s < 2 * c) by (nonlinear_arith)
        requires
            c == 0x100_0000,
            f < 0x4_0000_0000_0000,
            s * s <= f,
    ;
    lemma_units_at(k, m);
    let u = 2 * units(rounded_root(n));
    let a = 2 * m - 1;
    let b = 2 * m + 1;
    assert(u - h == a * h && u + h == b * h) by (nonlinear_arith)
        requires
            u == 2 * (m * h),
            a == 2 * m - 1,
            b == 2 * m + 1,
    ;
    assert((a * h) * (a * h) == (a * a) * g && (b * h) * (b * h) == (b * b) * g)
        by (nonlinear_arith)
        requires
            g == h * h,
    ;
    assert(a * a <= s * s) by (nonlinear_arith)
        requires
            0 <= a <= s,
    ;
    assert((s + 1) * (s + 1) <= b * b) by (nonlinear_arith)
        requires
            s + 1 <= b,
    ;
    assert((a * a) * g <= f * g && (f + 1) * g <= (b * b) * g) by (nonlinear_arith)
        requires
            a * a <= f,
            f + 1 <= b * b,
            g > 0,
    ;
    assert(h <= u) by (nonlinear_arith)
        requires
            u == 2 * (m * h),
            m >= 1,
    ;
}

} // verus!
