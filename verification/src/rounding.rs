//! Rounding a quotient of naturals to the nearest binary32 magnitude.
//!
//! Every finite binary32 value is a whole multiple of 2^-149, so a magnitude is
//! written here as a natural number of such units, and an exact result that has
//! to be rounded as a quotient `n / d` of naturals in the same unit.
use vstd::arithmetic::div_mod::lemma_fundamental_div_mod;
use vstd::arithmetic::div_mod::lemma_fundamental_div_mod_converse;
use vstd::arithmetic::power2::lemma2_to64;
use vstd::arithmetic::power2::lemma2_to64_rest;
use vstd::arithmetic::power2::lemma_pow2_adds;
use vstd::arithmetic::power2::lemma_pow2_pos;
use vstd::arithmetic::power2::lemma_pow2_strictly_increases;
use vstd::arithmetic::power2::lemma_pow2_unfold;
use vstd::arithmetic::power2::pow2;
use vstd::bits::lemma_u128_shr_is_div;
use vstd::prelude::*;

verus! {

/// The magnitude bits of infinity.
pub const INFINITY_BITS: u32 = 0x7f80_0000;

/// Fractional bits below the unit 2^-149 that the rounding step works with.
pub const GUARD: u32 = 256;

/// `n / d` rounded to the nearest natural number, halves to the even one.
pub open spec fn nearest(n: nat, d: nat) -> nat {
    let q = n / d;
    let r = n % d;
    if 2 * r > d || (2 * r == d && q % 2 == 1) {
        q + 1
    } else {
        q
    }
}

/// The least `k` with `n / d < 2^(24 + k)`: the exponent of the last place of a
/// 24-bit significand for the value `n / d`.
pub open spec fn last_place(n: nat, d: nat) -> nat
    decreases n - d,
{
    if d == 0 || n < d * 0x100_0000 {
        0
    } else {
        1 + last_place(n, 2 * d)
    }
}

/// The magnitude bits of the binary32 value nearest to `n / d` units, halves to
/// the even significand, and infinity from halfway past the largest finite value.
pub open spec fn rounded(n: nat, d: nat) -> nat {
    let k = last_place(n, d);
    let b = k * 0x80_0000 + nearest(n, d * pow2(k));
    if b < INFINITY_BITS {
        b
    } else {
        INFINITY_BITS as nat
    }
}

/// What places `last_place`.
pub proof fn lemma_last_place(n: nat, d: nat)
    requires
        d > 0,
    ensures
        n < d * pow2(24 + last_place(n, d)),
        last_place(n, d) > 0 ==> n >= d * pow2((23 + last_place(n, d)) as nat),
    decreases n - d,
{
    lemma2_to64();
    if n >= d * 0x100_0000 {
        let k = last_place(n, 2 * d);
        lemma_last_place(n, 2 * d);
        lemma_pow2_unfold(25 + k);
        lemma_pow2_unfold(24 + k);
        assert(d * pow2(25 + k) == (2 * d) * pow2(24 + k)) by (nonlinear_arith)
            requires
                pow2(25 + k) == 2 * pow2(24 + k),
        ;
        assert(d * pow2(24 + k) == (2 * d) * pow2(23 + k)) by (nonlinear_arith)
            requires
                pow2(24 + k) == 2 * pow2(23 + k),
        ;
    }
}

/// `last_place` is the only exponent that fits.
pub proof fn lemma_last_place_unique(n: nat, d: nat, k: nat)
    requires
        d > 0,
        n < d * pow2(24 + k),
        k > 0 ==> n >= d * pow2((23 + k) as nat),
    ensures
        last_place(n, d) == k,
{
    let j = last_place(n, d);
    lemma_last_place(n, d);
    if j < k {
        if 24 + j < 23 + k {
            lemma_pow2_strictly_increases(24 + j, 23 + k);
        }
        assert(d * pow2(24 + j) <= d * pow2((23 + k) as nat)) by (nonlinear_arith)
            requires
                pow2(24 + j) <= pow2((23 + k) as nat),
        ;
    }
    if k < j {
        if 24 + k < 23 + j {
            lemma_pow2_strictly_increases(24 + k, 23 + j);
        }
        assert(d * pow2(24 + k) <= d * pow2((23 + j) as nat)) by (nonlinear_arith)
            requires
                pow2(24 + k) <= pow2((23 + j) as nat),
        ;
    }
}

/// Rounding from a truncated significand: `m` holds the leading bits of `n / d`
/// counted in steps of `y / p`, and the value exceeds `m` steps exactly if
/// `sticky` is set. Dropping the bits below `s` steps then rounds like the
/// quotient itself.
proof fn lemma_nearest_from_truncation(
    n: nat,
    d: nat,
    p: nat,
    y: nat,
    s: nat,
    half: nat,
    m: nat,
    sticky: bool,
)
    requires
        d > 0,
        p > 0,
        y > 0,
        half > 0,
        s == 2 * half,
        d * p == s * y,
        m * y <= n * p < (m + 1) * y,
        sticky <==> m * y < n * p,
    ensures
        nearest(n, d) == (if m % s > half || (m % s == half && (sticky || (m / s) % 2 == 1)) {
            m / s + 1
        } else {
            m / s
        }),
{
    let hi = m / s;
    let low = m % s;
    lemma_fundamental_div_mod(m as int, s as int);
    assert(m == s * hi + low);
    // hi * d <= n < (hi + 1) * d
    assert(hi * d <= n) by (nonlinear_arith)
        requires
            p > 0,
            d * p == s * y,
            m * y <= n * p,
            m == s * hi + low,
            low >= 0,
            y > 0,
    {
        assert((hi * d) * p == hi * (d * p));
        assert(hi * (s * y) == (s * hi) * y);
        assert((s * hi) * y <= m * y);
        assert((hi * d) * p <= n * p);
    }
    assert(n < (hi + 1) * d) by (nonlinear_arith)
        requires
            p > 0,
            d * p == s * y,
            n * p < (m + 1) * y,
            m == s * hi + low,
            low < s,
            y > 0,
    {
        assert(((hi + 1) * d) * p == (hi + 1) * (d * p));
        assert((hi + 1) * (s * y) == (s * (hi + 1)) * y);
        assert(s * (hi + 1) == s * hi + s);
        assert(m + 1 <= s * (hi + 1));
        assert((m + 1) * y <= (s * (hi + 1)) * y);
        assert(n * p < ((hi + 1) * d) * p);
    }
    let r = n - hi * d;
    assert((hi + 1) * d == hi * d + d) by (nonlinear_arith);
    lemma_fundamental_div_mod_converse(n as int, d as int, hi as int, r as int);
    assert(n / d == hi && n % d == r);
    // Compare 2 * n with (2 * hi + 1) * d through the midpoint t = s * hi + half.
    let t = s * hi + half;
    assert((2 * hi + 1) * d == 2 * (hi * d) + d) by (nonlinear_arith);
    assert((2 * ((2 * hi + 1) * d)) * p == 4 * (t * y)) by (nonlinear_arith)
        requires
            d * p == s * y,
            s == 2 * half,
            t == s * hi + half,
    {
        assert((2 * ((2 * hi + 1) * d)) * p == 2 * (2 * hi + 1) * (d * p));
        assert(2 * (2 * hi + 1) * (s * y) == (2 * (2 * hi + 1) * s) * y);
        assert(2 * (2 * hi + 1) * s == 4 * (s * hi) + 2 * s);
        assert(4 * t == 4 * (s * hi) + 4 * half);
        assert((4 * t) * y == 4 * (t * y));
    }
    assert((2 * ((2 * hi + 1) * d)) * p == 2 * (((2 * hi + 1) * d) * p)) by (nonlinear_arith);
    let mid = ((2 * hi + 1) * d) * p;
    assert(mid == 2 * (t * y));
    assert((2 * n) * p == 2 * (n * p)) by (nonlinear_arith);
    if m > t {
        assert((t + 1) * y <= m * y) by (nonlinear_arith)
            requires
                m >= t + 1,
                y > 0,
        ;
        assert((t + 1) * y == t * y + y) by (nonlinear_arith);
        assert((2 * n) * p > mid);
        assert(2 * n > (2 * hi + 1) * d) by (nonlinear_arith)
            requires
                (2 * n) * p > ((2 * hi + 1) * d) * p,
                p > 0,
        ;
    } else if m < t {
        assert((m + 1) * y <= t * y) by (nonlinear_arith)
            requires
                m + 1 <= t,
                y > 0,
        ;
        assert((2 * n) * p < mid);
        assert(2 * n < (2 * hi + 1) * d) by (nonlinear_arith)
            requires
                (2 * n) * p < ((2 * hi + 1) * d) * p,
                p > 0,
        ;
    } else if sticky {
        assert((2 * n) * p > mid);
        assert(2 * n > (2 * hi + 1) * d) by (nonlinear_arith)
            requires
                (2 * n) * p > ((2 * hi + 1) * d) * p,
                p > 0,
        ;
    } else {
        assert((2 * n) * p == mid);
        assert(2 * n == (2 * hi + 1) * d) by (nonlinear_arith)
            requires
                (2 * n) * p == ((2 * hi + 1) * d) * p,
                p > 0,
        ;
    }
}

/// The number of binary digits of `m`.
pub(crate) fn bit_length(m: u128) -> (b: u32)
    requires
        m > 0,
    ensures
        1 <= b <= 128,
        pow2((b - 1) as nat) <= m < pow2(b as nat),
{
    let mut x: u128 = m;
    let mut b: u32 = 0;
    proof {
        lemma2_to64();
        lemma_pow2_adds(64, 64);
    }
    let mut step: u32 = 64;
    while step > 0
        invariant
            step == 64 || step == 32 || step == 16 || step == 8 || step == 4 || step == 2 || step
                == 1 || step == 0,
            x > 0,
            step > 0 ==> x < pow2(2 * step as nat),
            step == 0 ==> x == 1,
            b + 2 * step <= 128,
            b <= 127,
            x * pow2(b as nat) <= m < (x + 1) * pow2(b as nat),
        decreases step,
    {
        proof {
            lemma2_to64();
        }
        let ghost b0 = b as nat;
        let ghost x0 = x as nat;
        let high: u128 = x >> step;
        proof {
            lemma_u128_shr_is_div(x, step as u128);
            lemma_pow2_pos(step as nat);
            lemma_fundamental_div_mod(x as int, pow2(step as nat) as int);
            lemma_pow2_adds(step as nat, step as nat);
            lemma_pow2_adds(b0, step as nat);
        }
        if high > 0 {
            proof {
                let w = pow2(step as nat);
                assert(high < w) by (nonlinear_arith)
                    requires
                        w * high <= x,
                        x < w * w,
                        w > 0,
                ;
                assert(high * (pow2(b0) * w) <= m < (high + 1) * (pow2(b0) * w)) by (nonlinear_arith)
                    requires
                        w * high <= x0,
                        x0 + 1 <= w * (high + 1),
                        x0 * pow2(b0) <= m < (x0 + 1) * pow2(b0),
                ;
            }
            x = high;
            b = b + step;
        } else {
            proof {
                assert(x < pow2(step as nat));
            }
        }
        step = step / 2;
        proof {
            if step == 0 {
                assert(x < 2);
            }
        }
    }
    proof {
        lemma_pow2_unfold((b + 1) as nat);
    }
    b + 1
}

/// `2^j`.
pub(crate) fn two_to(j: u32) -> (r: u128)
    requires
        j < 128,
    ensures
        r == pow2(j as nat),
{
    let r: u128 = 1u128 << j;
    proof {
        lemma_shl_is_pow2(j);
    }
    r
}

proof fn lemma_shl_is_pow2(j: u32)
    requires
        j < 128,
    ensures
        (1u128 << j) == pow2(j as nat),
    decreases j,
{
    if j == 0 {
        lemma2_to64();
        assert(1u128 << 0u32 == 1u128) by (bit_vector);
    } else {
        let i = (j - 1) as u32;
        lemma_shl_is_pow2(i);
        lemma_pow2_unfold(j as nat);
        assert(1u128 << j == 2 * (1u128 << i)) by (bit_vector)
            requires
                0 < j < 128,
                j == i + 1,
        ;
    }
}

/// Whether `m * 2^e` guard steps are the value `n / d`, cut to a whole number of
/// such steps, with `sticky` telling if something was cut off.
pub(crate) open spec fn truncates(m: nat, e: nat, sticky: bool, n: nat, d: nat) -> bool {
    &&& m * (pow2(e) * d) <= n * pow2(GUARD as nat) < (m + 1) * (pow2(e) * d)
    &&& sticky <==> m * (pow2(e) * d) < n * pow2(GUARD as nat)
}

/// Where the last place of a truncated value lies.
proof fn lemma_truncated_place(m: nat, e: nat, sticky: bool, n: nat, d: nat, b: nat, k: nat)
    requires
        d > 0,
        b > 0,
        truncates(m, e, sticky, n, d),
        pow2((b - 1) as nat) <= m < pow2(b),
        k == (if b + e > 24 + GUARD {
            b + e - (24 + GUARD)
        } else {
            0
        }),
    ensures
        last_place(n, d) == k,
{
    let p = pow2(GUARD as nat);
    let y = pow2(e) * d;
    lemma_pow2_pos(GUARD as nat);
    lemma_pow2_pos(e);
    lemma_pow2_adds(b, e);
    lemma_pow2_adds(24 + k, GUARD as nat);
    let w = pow2(24 + k);
    if b + e < 24 + k + GUARD {
        lemma_pow2_strictly_increases(b + e, 24 + k + GUARD as nat);
    }
    assert(n < d * w) by (nonlinear_arith)
        requires
            n * p < (m + 1) * (pow2(e) * d),
            m + 1 <= pow2(b),
            pow2(b) * pow2(e) <= w * p,
            d > 0,
            p > 0,
    {
        assert((m + 1) * (pow2(e) * d) <= pow2(b) * (pow2(e) * d));
        assert(pow2(b) * (pow2(e) * d) == (pow2(b) * pow2(e)) * d);
        assert((pow2(b) * pow2(e)) * d <= (w * p) * d);
        assert((w * p) * d == (d * w) * p);
    }
    if k > 0 {
        let v = pow2((23 + k) as nat);
        lemma_pow2_adds((b - 1) as nat, e);
        lemma_pow2_adds((23 + k) as nat, GUARD as nat);
        let a = pow2((b - 1) as nat);
        assert(a * pow2(e) == v * p);
        assert(n >= d * v) by (nonlinear_arith)
            requires
                m * (pow2(e) * d) <= n * p,
                a <= m,
                a * pow2(e) == v * p,
                d > 0,
                p > 0,
        {
            assert(a * (pow2(e) * d) <= m * (pow2(e) * d));
            assert(a * (pow2(e) * d) == (a * pow2(e)) * d);
            assert((v * p) * d == (d * v) * p);
        }
    }
    lemma_last_place_unique(n, d, k);
}

/// A value whose last place lies at or below its last step is exact.
proof fn lemma_exact(m: nat, e: nat, n: nat, d: nat, k: nat, up: nat)
    requires
        d > 0,
        truncates(m, e, false, n, d),
        e == k + GUARD + up,
    ensures
        nearest(n, d * pow2(k)) == m * pow2(up),
{
    let p = pow2(GUARD as nat);
    lemma_pow2_pos(GUARD as nat);
    lemma_pow2_pos(k);
    lemma_pow2_adds(k, GUARD as nat);
    lemma_pow2_adds(k + GUARD as nat, up);
    let dk = d * pow2(k);
    let v = m * pow2(up);
    assert(n == v * dk) by (nonlinear_arith)
        requires
            n * p == m * (pow2(e) * d),
            pow2(e) == (pow2(k) * p) * pow2(up),
            dk == d * pow2(k),
            v == m * pow2(up),
            p > 0,
    {
        assert(m * (((pow2(k) * p) * pow2(up)) * d) == ((m * pow2(up)) * (d * pow2(k))) * p);
    }
    assert(dk > 0) by (nonlinear_arith)
        requires
            dk == d * pow2(k),
            d > 0,
            pow2(k) > 0,
    ;
    lemma_fundamental_div_mod_converse(n as int, dk as int, v as int, 0);
}

/// Rounds `m * 2^e` guard steps, with `sticky` for a cut-off rest.
pub(crate) fn round_magnitude(
    m: u128,
    e: u32,
    sticky: bool,
    Ghost(n): Ghost<nat>,
    Ghost(d): Ghost<nat>,
) -> (r: u32)
    requires
        d > 0,
        0 < m < 0x8000_0000_0000_0000_0000_0000_0000_0000,
        e <= 0x1000,
        sticky ==> m >= 0x200_0000,
        truncates(m as nat, e as nat, sticky, n, d),
    ensures
        r == rounded(n, d),
{
    let b: u32 = bit_length(m);
    let top: u32 = b + e;
    let k: u32 = if top > 24 + GUARD {
        top - (24 + GUARD)
    } else {
        0
    };
    let cut: u32 = k + GUARD;
    proof {
        lemma_truncated_place(m as nat, e as nat, sticky, n, d, b as nat, k as nat);
        lemma2_to64();
        lemma_pow2_adds(63, 64);
        lemma2_to64_rest();
        if b == 128 {
            assert(false);
        }
    }
    let q: u64 = if cut <= e {
        let up: u128 = two_to(e - cut);
        proof {
            if b > 24 {
                assert(false);
            }
            if b < 24 {
                lemma_pow2_strictly_increases(b as nat, 24);
            }
            let j = (e - cut) as nat;
            lemma_pow2_adds(b as nat, j);
            if b + j < 24 {
                lemma_pow2_strictly_increases(b as nat + j, 24);
            }
            lemma_pow2_pos(j);
            assert(m * up < 0x100_0000) by (nonlinear_arith)
                requires
                    m < pow2(b as nat),
                    pow2(b as nat) * pow2(j) <= 0x100_0000,
                    up == pow2(j),
                    pow2(j) > 0,
            ;
            lemma_exact(m as nat, e as nat, n, d, k as nat, j);
        }
        (m * up) as u64
    } else {
        let drop: u32 = cut - e;
        let ghost s = pow2(drop as nat);
        let ghost half = pow2((drop - 1) as nat);
        proof {
            let p = pow2(GUARD as nat);
            let y = pow2(e as nat) * d;
            let dk = d * pow2(k as nat);
            lemma_pow2_pos(GUARD as nat);
            lemma_pow2_pos(e as nat);
            lemma_pow2_pos(k as nat);
            lemma_pow2_pos((drop - 1) as nat);
            lemma_pow2_unfold(drop as nat);
            lemma_pow2_adds(k as nat, GUARD as nat);
            lemma_pow2_adds(drop as nat, e as nat);
            assert(dk > 0 && y > 0 && dk * p == s * y) by (nonlinear_arith)
                requires
                    dk == d * pow2(k as nat),
                    y == pow2(e as nat) * d,
                    pow2(k as nat) * p == s * pow2(e as nat),
                    d > 0,
                    pow2(k as nat) > 0,
                    pow2(e as nat) > 0,
            {
                assert((d * pow2(k as nat)) * p == d * (pow2(k as nat) * p));
                assert(s * (pow2(e as nat) * d) == d * (s * pow2(e as nat)));
            }
            lemma_nearest_from_truncation(n, dk, p, y, s, half, m as nat, sticky);
        }
        if drop >= 128 {
            proof {
                if drop > 128 {
                    lemma_pow2_strictly_increases(127, (drop - 1) as nat);
                }
                lemma_fundamental_div_mod_converse(m as int, s as int, 0, m as int);
            }
            0
        } else {
            let step: u128 = two_to(drop);
            let middle: u128 = two_to(drop - 1);
            let high: u128 = m / step;
            let low: u128 = m % step;
            proof {
                assert(high < 0x100_0000) by {
                    lemma_fundamental_div_mod(m as int, s as int);
                    lemma_pow2_adds(drop as nat, 24);
                    if b < drop + 24 {
                        lemma_pow2_strictly_increases(b as nat, drop as nat + 24);
                    }
                    assert(high < 0x100_0000) by (nonlinear_arith)
                        requires
                            s * high <= m,
                            m < s * 0x100_0000,
                            s > 0,
                    ;
                }
            }
            if low > middle || (low == middle && (sticky || high % 2 == 1)) {
                high as u64 + 1
            } else {
                high as u64
            }
        }
    };
    let bits: u64 = k as u64 * 0x80_0000 + q;
    if bits < INFINITY_BITS as u64 {
        bits as u32
    } else {
        INFINITY_BITS
    }
}

} // verus!
