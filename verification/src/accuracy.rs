//! How near a rounded result is to an exact one.
//!
//! Rounding to nearest changes a number by at most 2^-24 of it. What several steps of
//! rounding make of it is stated by factors of (2^24 + 1) / (2^24 - 1), one for each
//! step, and by a slack for what is too small to be held to that precision.
use crate::convert::of_int;
use crate::positive::lemma_count;
use crate::positive::lemma_over;
use crate::positive::lemma_root;
use crate::positive::lemma_root_argument;
use crate::positive::lemma_significand_of_root;
use crate::precision::lemma_nearest;
use crate::precision::lemma_significand;
use crate::precision::lemma_units_at;
use crate::precision::order_is_by_value;
use crate::precision::root_is_nearest;
use crate::precision::rounding_is_monotone;
use crate::precision::rounding_keeps_representable;
use crate::root::floor_root;
use crate::root::lemma_floor_root;
use crate::root::root_place;
use crate::root::rounded_root;
use crate::rounding::last_place;
use crate::rounding::lemma_last_place;
use crate::rounding::nearest;
use crate::rounding::rounded;
use crate::rounding::INFINITY_BITS;
use crate::single::units;
use crate::single::Single;
use vstd::arithmetic::div_mod::lemma_fundamental_div_mod;
use vstd::arithmetic::power::lemma_pow1;
use vstd::arithmetic::power::lemma_pow_adds;
use vstd::arithmetic::power::pow;
use vstd::arithmetic::power2::lemma2_to64;
use vstd::arithmetic::power2::lemma2_to64_rest;
use vstd::arithmetic::power2::lemma_pow2_adds;
use vstd::arithmetic::power2::lemma_pow2_pos;
use vstd::arithmetic::power2::lemma_pow2_strictly_increases;
use vstd::arithmetic::power2::pow2;
use vstd::prelude::*;

verus! {

/// By which part of itself rounding changes a number at most: one of 2^24.
pub const PARTS: i32 = 0x100_0000;

/// Whether `a` is no more than `b` up to `k` steps of rounding and a slack: at most
/// `b + slack` times `((2^24 + 1) / (2^24 - 1))^k`.
pub open spec fn no_more(a: int, b: int, k: nat, slack: int) -> bool {
    a * pow(PARTS - 1, k) <= pow(PARTS + 1, k) * (b + slack)
}

/// Whether `a` and `b` are the same up to `k` steps of rounding and a slack.
pub open spec fn close(a: int, b: int, k: nat, slack: int) -> bool {
    no_more(a, b, k, slack) && no_more(b, a, k, slack)
}

proof fn lemma_factors(k: nat)
    ensures
        0 < pow(PARTS - 1, k) <= pow(PARTS + 1, k),
    decreases k,
{
    reveal(pow);
    if k > 0 {
        let x = pow(PARTS - 1, (k - 1) as nat);
        let y = pow(PARTS + 1, (k - 1) as nat);
        lemma_factors((k - 1) as nat);
        assert(0 < (PARTS - 1) * x <= (PARTS + 1) * y) by (nonlinear_arith)
            requires
                0 < x <= y,
                PARTS == 0x100_0000,
        ;
    }
}

/// What is no greater is no more, and what is the same is close.
pub(crate) proof fn lemma_exactly(a: int, b: int, k: nat)
    requires
        0 <= a <= b,
    ensures
        no_more(a, b, k, 0),
        a == b ==> close(a, b, k, 0),
{
    let x = pow(PARTS - 1, k);
    let y = pow(PARTS + 1, k);
    lemma_factors(k);
    assert(a * x <= y * b) by (nonlinear_arith)
        requires
            0 <= a <= b,
            0 < x <= y,
    ;
}

/// Squares of numbers that one step of rounding lies between.
pub(crate) proof fn lemma_close_squares(a: int, b: int)
    requires
        a >= 0,
        b >= 0,
        close(a, b, 1, 0),
    ensures
        close(a * a, b * b, 2, 0),
{
    let x = PARTS - 1;
    let y = PARTS + 1;
    lemma_one_step(a, b, 0);
    lemma_one_step(b, a, 0);
    lemma_pow1(PARTS - 1);
    lemma_pow1(PARTS + 1);
    lemma_pow_adds(PARTS - 1, 1, 1);
    lemma_pow_adds(PARTS + 1, 1, 1);
    assert((a * a) * (x * x) <= (y * y) * (b * b)) by (nonlinear_arith)
        requires
            0 <= a * x <= y * b,
    ;
    assert((b * b) * (x * x) <= (y * y) * (a * a)) by (nonlinear_arith)
        requires
            0 <= b * x <= y * a,
    ;
}

/// A single step of rounding.
pub(crate) proof fn lemma_one_step(a: int, b: int, slack: int)
    ensures
        no_more(a, b, 1, slack) <==> a * (PARTS - 1) <= (PARTS + 1) * (b + slack),
{
    lemma_pow1(PARTS - 1);
    lemma_pow1(PARTS + 1);
}

/// Steps of rounding add up.
pub proof fn lemma_no_more_through(a: int, b: int, e: int, k: nat, j: nat, s: int, t: int)
    requires
        no_more(a, b, k, s),
        no_more(b, e, j, t),
        s >= 0,
    ensures
        no_more(a, e, k + j, s + t),
{
    let x = pow(PARTS - 1, k);
    let y = pow(PARTS + 1, k);
    let v = pow(PARTS - 1, j);
    let w = pow(PARTS + 1, j);
    lemma_factors(k);
    lemma_factors(j);
    lemma_pow_adds(PARTS - 1, k, j);
    lemma_pow_adds(PARTS + 1, k, j);
    assert(a * (x * v) <= (y * (b + s)) * v) by (nonlinear_arith)
        requires
            a * x <= y * (b + s),
            v > 0,
    ;
    assert((y * (b + s)) * v == y * (b * v + s * v)) by (nonlinear_arith);
    assert(s * v <= s * w) by (nonlinear_arith)
        requires
            s >= 0,
            v <= w,
    ;
    assert(y * (b * v + s * v) <= y * (w * (e + t) + s * w)) by (nonlinear_arith)
        requires
            b * v <= w * (e + t),
            s * v <= s * w,
            y > 0,
    ;
    assert(y * (w * (e + t) + s * w) == (y * w) * (e + (s + t))) by (nonlinear_arith);
}

/// Steps of rounding add up, both ways.
pub proof fn lemma_close_through(a: int, b: int, e: int, k: nat, j: nat, s: int, t: int)
    requires
        close(a, b, k, s),
        close(b, e, j, t),
        s >= 0,
        t >= 0,
    ensures
        close(a, e, k + j, s + t),
{
    lemma_no_more_through(a, b, e, k, j, s, t);
    lemma_no_more_through(e, b, a, j, k, t, s);
}

/// What holds up to some steps of rounding holds up to more of them.
pub proof fn lemma_no_more_wider(a: int, b: int, k: nat, s: int, j: nat, t: int)
    requires
        no_more(a, b, k, s),
        b >= 0,
        0 <= s <= t,
        k <= j,
    ensures
        no_more(a, b, j, t),
{
    let i = (j - k) as nat;
    let r = t - s;
    lemma_factors(i);
    lemma_factors(0);
    let v = pow(PARTS - 1, i);
    let w = pow(PARTS + 1, i);
    assert(b * v <= w * (b + r)) by (nonlinear_arith)
        requires
            0 < v <= w,
            b >= 0,
            r >= 0,
    ;
    lemma_no_more_through(a, b, b, k, i, s, r);
}

/// What holds up to some steps of rounding holds up to more of them, both ways.
pub proof fn lemma_close_wider(a: int, b: int, k: nat, s: int, j: nat, t: int)
    requires
        close(a, b, k, s),
        a >= 0,
        b >= 0,
        0 <= s <= t,
        k <= j,
    ensures
        close(a, b, j, t),
{
    lemma_no_more_wider(a, b, k, s, j, t);
    lemma_no_more_wider(b, a, k, s, j, t);
}

/// Sums of what is close are close.
pub proof fn lemma_close_sum(a: int, b: int, c: int, d: int, k: nat, s: int, t: int)
    requires
        close(a, b, k, s),
        close(c, d, k, t),
    ensures
        close(a + c, b + d, k, s + t),
{
    let x = pow(PARTS - 1, k);
    let y = pow(PARTS + 1, k);
    assert((a + c) * x == a * x + c * x) by (nonlinear_arith);
    assert((b + d) * x == b * x + d * x) by (nonlinear_arith);
    assert(y * (b + s) + y * (d + t) == y * (b + d + (s + t))) by (nonlinear_arith);
    assert(y * (a + s) + y * (c + t) == y * (a + c + (s + t))) by (nonlinear_arith);
}

/// Multiples of what is close are close.
pub proof fn lemma_close_scaled(a: int, b: int, k: nat, s: int, m: int)
    requires
        close(a, b, k, s),
        m >= 0,
    ensures
        close(a * m, b * m, k, s * m),
{
    let x = pow(PARTS - 1, k);
    let y = pow(PARTS + 1, k);
    assert((a * m) * x <= y * (b * m + s * m)) by (nonlinear_arith)
        requires
            a * x <= y * (b + s),
            m >= 0,
    ;
    assert((b * m) * x <= y * (a * m + s * m)) by (nonlinear_arith)
        requires
            b * x <= y * (a + s),
            m >= 0,
    ;
}

/// Numbers of which a multiple is no more.
pub proof fn lemma_no_more_divided(a: int, b: int, k: nat, s: int, m: int)
    requires
        no_more(a * m, b * m, k, s * m),
        m > 0,
    ensures
        no_more(a, b, k, s),
{
    let x = pow(PARTS - 1, k);
    let y = pow(PARTS + 1, k);
    assert(a * x <= y * (b + s)) by (nonlinear_arith)
        requires
            (a * m) * x <= y * (b * m + s * m),
            m > 0,
    ;
}

/// Numbers of which the squares are no more.
pub proof fn lemma_no_more_root(a: int, b: int, k: nat, s: int)
    requires
        no_more(a * a, b * b, 2 * k, s * s),
        a >= 0,
        b >= 0,
        s >= 0,
    ensures
        no_more(a, b, k, s),
{
    let x = pow(PARTS - 1, k);
    let y = pow(PARTS + 1, k);
    lemma_factors(k);
    lemma_pow_adds(PARTS - 1, k, k);
    lemma_pow_adds(PARTS + 1, k, k);
    let p = a * x;
    let q = y * (b + s);
    assert(p * p == (a * a) * (x * x)) by (nonlinear_arith)
        requires
            p == a * x,
    ;
    assert((y * y) * (b * b + s * s) <= q * q) by (nonlinear_arith)
        requires
            q == y * (b + s),
            b >= 0,
            s >= 0,
    ;
    assert(q >= 0) by (nonlinear_arith)
        requires
            q == y * (b + s),
            y > 0,
            b + s >= 0,
    ;
    assert(p <= q) by (nonlinear_arith)
        requires
            p * p <= q * q,
            q >= 0,
    ;
}

/// A finite result of rounding is close to the exact value, but for a unit; and closer
/// where that value is a whole number of units.
pub(crate) proof fn lemma_rounding_error(n: nat, d: nat)
    requires
        d > 0,
        rounded(n, d) < INFINITY_BITS,
    ensures
        close((units(rounded(n, d)) * d) as int, n as int, 1, d as int),
        d == 1 ==> close(units(rounded(n, d)) as int, n as int, 1, 0),
        ({
            let r = units(rounded(n, d)) * d;
            &&& PARTS * r <= (PARTS + 1) * n + 0x80_0000 * d
            &&& (PARTS - 1) * n <= PARTS * r + 0x80_0000 * d
            &&& d == 1 ==> PARTS * r <= (PARTS + 1) * n && (PARTS - 1) * n <= PARTS * r
        }),
{
    let k = last_place(n, d);
    let s = pow2(k);
    let dk = d * s;
    let q = nearest(n, dk);
    lemma2_to64();
    lemma_pow2_pos(k);
    lemma_last_place(n, d);
    lemma_significand(n, d);
    lemma_units_at(k, q);
    lemma_nearest(n, dk);
    let r = units(rounded(n, d)) * d;
    assert(r == q * dk) by (nonlinear_arith)
        requires
            r == (q * s) * d,
            dk == d * s,
    ;
    assert((2 * q - 1) * dk == 2 * r - dk && (2 * q + 1) * dk == 2 * r + dk) by (nonlinear_arith)
        requires
            r == q * dk,
    ;
    if k > 0 {
        lemma_pow2_adds(23, k);
        assert(n >= 0x80_0000 * dk) by (nonlinear_arith)
            requires
                n >= d * (0x80_0000 * s),
                dk == d * s,
        ;
    } else {
        assert(dk == d) by (nonlinear_arith)
            requires
                dk == d * s,
                s == 1,
        ;
    }
    assert(units(rounded(n, d)) * 1 == units(rounded(n, d)));
    lemma_one_step(r as int, n as int, d as int);
    lemma_one_step(n as int, r as int, d as int);
    lemma_one_step(r as int, n as int, 0);
    lemma_one_step(n as int, r as int, 0);
}

/// A quotient by a count is finite and, times the count, close to the dividend.
pub(crate) proof fn lemma_quotient_error(a: Single, n: nat)
    requires
        a.at_least_zero(),
        a.is_finite(),
        0 < n <= usize::MAX,
    ensures
        ({
            let q = a.over(of_int(n as int));
            &&& q.bits <= a.bits
            &&& q.is_finite()
            &&& close(q.value() * n, a.value(), 1, n as int)
        }),
{
    let u = pow2(149);
    let v = n * u;
    let count = of_int(n as int);
    let s = units(a.magnitude());
    let d = units(count.magnitude());
    let q = a.over(count);
    lemma_pow2_pos(149);
    lemma_count(n);
    lemma_over(a, count);
    assert(v >= u) by (nonlinear_arith)
        requires
            v == n * u,
            n >= 1,
    ;
    lemma_rounding_error(v, 1);
    assert(count.magnitude() == rounded(v, 1));
    assert(PARTS * d <= (PARTS + 1) * v && (PARTS - 1) * v <= PARTS * d);
    lemma_one_and_more(n);
    order_is_by_value(Single { bits: 0 }, count);
    assert((s * u) * u <= (s * u) * d) by (nonlinear_arith)
        requires
            u <= d,
    ;
    rounding_is_monotone(s * u, d, s * u, u);
    rounding_keeps_representable(a.magnitude(), u);
    lemma_rounding_error(s * u, d);
    let m = units(q.magnitude());
    let c = PARTS as int;
    // m d is close to s u, and d to n u.
    assert(c * (m * d) <= (c + 1) * (s * u) + 0x80_0000 * d);
    assert((c - 1) * (s * u) <= c * (m * d) + 0x80_0000 * d);
    assert((m * n) * (c - 1) <= (c + 1) * (s + n)) by {
        assert(((m * n) * (c - 1)) * u <= c * (m * d)) by (nonlinear_arith)
            requires
                (c - 1) * v <= c * d,
                v == n * u,
                m >= 0,
        ;
        assert(0x80_0000 * d <= (c + 1) * v) by (nonlinear_arith)
            requires
                c * d <= (c + 1) * v,
                c == 0x100_0000,
                d >= 0,
        ;
        assert((c + 1) * (s * u) + (c + 1) * v == ((c + 1) * (s + n)) * u) by (nonlinear_arith)
            requires
                v == n * u,
        ;
        assert((m * n) * (c - 1) <= (c + 1) * (s + n)) by (nonlinear_arith)
            requires
                ((m * n) * (c - 1)) * u <= ((c + 1) * (s + n)) * u,
                u > 0,
        ;
    }
    assert(s * (c - 1) <= (c + 1) * (m * n + n)) by {
        assert(c * (m * d) <= ((c + 1) * (m * n)) * u) by (nonlinear_arith)
            requires
                c * d <= (c + 1) * v,
                v == n * u,
                m >= 0,
        ;
        assert(0x80_0000 * d <= ((c + 1) * n) * u) by (nonlinear_arith)
            requires
                c * d <= (c + 1) * v,
                v == n * u,
                c == 0x100_0000,
                d >= 0,
        ;
        assert(((c + 1) * (m * n)) * u + ((c + 1) * n) * u == ((c + 1) * (m * n + n)) * u)
            by (nonlinear_arith);
        assert(s * (c - 1) <= (c + 1) * (m * n + n)) by (nonlinear_arith)
            requires
                (c - 1) * (s * u) <= ((c + 1) * (m * n + n)) * u,
                u > 0,
        ;
    }
    lemma_one_step((m * n) as int, s as int, n as int);
    lemma_one_step(s as int, (m * n) as int, n as int);
}

/// A count is held as one or more.
proof fn lemma_one_and_more(n: nat)
    requires
        0 < n <= usize::MAX,
    ensures
        units(of_int(n as int).magnitude()) >= pow2(149),
{
    let u = pow2(149);
    let one = 0x3f80_0000nat;
    lemma2_to64();
    lemma_pow2_pos(149);
    lemma_pow2_adds(23, 126);
    lemma_count(n);
    rounding_keeps_representable(one, 1);
    assert(u * 1 <= n * u && n * u > 0) by (nonlinear_arith)
        requires
            n >= 1,
            u > 0,
    ;
    rounding_is_monotone(units(one) * 1, 1, n * u, 1);
    order_is_by_value(Single { bits: 0x3f80_0000 }, of_int(n as int));
}

/// The square of a root is close to the number.
pub(crate) proof fn lemma_root_error(a: Single)
    requires
        a.at_least_zero(),
        a.is_finite(),
    ensures
        ({
            let r = a.root();
            &&& r.at_least_zero()
            &&& r.is_finite()
            &&& close(r.value() * r.value(), a.value() * pow2(149), 2, 0)
        }),
{
    let u = pow2(149);
    let v = units(a.magnitude());
    let root = a.root();
    lemma_root(a);
    lemma_factors(2);
    if a.is_zero() {
        assert(a.value() == 0);
        assert(0 * u == 0 && 0 * pow(PARTS - 1, 2) == 0 && pow(PARTS + 1, 2) * 0 == 0)
            by (nonlinear_arith);
    } else {
        let n = v * u;
        let r = units(rounded_root(n));
        let k = root_place(n);
        let half = pow2(k);
        lemma_pow2_pos(149);
        lemma2_to64();
        lemma_pow2_strictly_increases(46, 149);
        lemma2_to64_rest();
        order_is_by_value(Single { bits: 0 }, a);
        assert(n >= u) by (nonlinear_arith)
            requires
                n == v * u,
                v >= 1,
        ;
        lemma_root_argument(a);
        root_is_nearest(n);
        lemma_root_step(n);
        assert(root.value() == r);
        let c = PARTS as int;
        let w = 2 * r;
        let x = (c - 1) * w;
        let y = (c + 1) * w;
        // Half a step is at most 2^-24 of the root.
        assert(c * half <= w);
        let lo = w - half;
        let hi = w + half;
        assert(0 <= x <= c * lo && 0 <= c * hi <= y) by (nonlinear_arith)
            requires
                x == (c - 1) * w,
                y == (c + 1) * w,
                lo == w - half,
                hi == w + half,
                c * half <= w,
                c == 0x100_0000,
                half >= 0,
        ;
        assert(x * x <= (c * c) * (4 * n)) by (nonlinear_arith)
            requires
                0 <= x <= c * lo,
                lo * lo <= 4 * n,
        ;
        assert((c * c) * (4 * n) <= y * y) by (nonlinear_arith)
            requires
                0 <= c * hi <= y,
                4 * n <= hi * hi,
        ;
        assert(x * x == 4 * ((r * r) * ((c - 1) * (c - 1))) && y * y == 4 * ((r * r) * ((c + 1) * (
        c + 1)))) by (nonlinear_arith)
            requires
                x == (c - 1) * (2 * r),
                y == (c + 1) * (2 * r),
        ;
        assert((c * c) * n <= ((c + 1) * (c + 1)) * n && ((c - 1) * (c - 1)) * n <= (c * c) * n)
            by (nonlinear_arith)
            requires
                c == 0x100_0000,
                n >= 0,
        ;
        lemma_pow1(PARTS - 1);
        lemma_pow1(PARTS + 1);
        lemma_pow_adds(PARTS - 1, 1, 1);
        lemma_pow_adds(PARTS + 1, 1, 1);
        assert((r * r) * ((c - 1) * (c - 1)) <= ((c + 1) * (c + 1)) * (n + 0));
        assert(n * ((c - 1) * (c - 1)) <= ((c + 1) * (c + 1)) * (r * r + 0)) by (nonlinear_arith)
            requires
                ((c - 1) * (c - 1)) * n <= (r * r) * ((c + 1) * (c + 1)),
        ;
    }
}

/// A step of a root is at most 2^-23 of it.
proof fn lemma_root_step(n: nat)
    requires
        n >= 0x4000_0000_0000,
    ensures
        PARTS * pow2(root_place(n)) <= 2 * units(rounded_root(n)),
{
    let k = root_place(n);
    let s = pow2(k);
    lemma_significand_of_root(n);
    let g = pow2(2 * k);
    let f = 4 * n / g;
    let m = (floor_root(f) + 1) / 2;
    if k == 0 {
        lemma2_to64();
        lemma_floor_root(f);
        let t = floor_root(f);
        assert(g == 1);
        lemma_fundamental_div_mod((4 * n) as int, 1);
        assert(t >= 0x100_0000) by (nonlinear_arith)
            requires
                f >= 0x1_0000_0000_0000,
                f < (t + 1) * (t + 1),
        ;
    }
    lemma_units_at(k, m);
    assert(PARTS * s <= 2 * (m * s)) by (nonlinear_arith)
        requires
            m >= 0x80_0000,
            PARTS == 0x100_0000,
            s >= 0,
    ;
}

} // verus!
