//! The square root of a binary32 number.
use crate::rounding::bit_length;
use crate::rounding::two_to;
use crate::rounding::INFINITY_BITS;
use crate::single::signed;
use crate::single::split;
use crate::single::units;
use crate::single::with_sign;
use crate::single::Single;
use crate::single::NAN_BITS;
use vstd::arithmetic::div_mod::lemma_fundamental_div_mod;
use vstd::arithmetic::div_mod::lemma_fundamental_div_mod_converse;
use vstd::arithmetic::power2::lemma2_to64;
use vstd::arithmetic::power2::lemma2_to64_rest;
use vstd::arithmetic::power2::lemma_pow2_adds;
use vstd::arithmetic::power2::lemma_pow2_pos;
use vstd::arithmetic::power2::lemma_pow2_strictly_increases;
use vstd::arithmetic::power2::lemma_pow2_unfold;
use vstd::arithmetic::power2::pow2;
use vstd::prelude::*;

verus! {

/// The whole square root of `n`, rounded down.
pub open spec fn floor_root(n: nat) -> nat
    decreases n,
{
    if n == 0 {
        0
    } else {
        let r = floor_root((n - 1) as nat);
        if (r + 1) * (r + 1) <= n {
            r + 1
        } else {
            r
        }
    }
}

/// The least `k` with `sqrt(n) < 2^(24 + k)`.
pub open spec fn root_place(n: nat) -> nat
    decreases n,
{
    if n < 0x1_0000_0000_0000 {
        0
    } else {
        1 + root_place(n / 4)
    }
}

/// The magnitude bits of the number nearest to `sqrt(n)` units. The significand
/// is `sqrt(n) / 2^k` rounded to the nearest whole number, which is half of one
/// more than the whole part of twice that quotient.
pub open spec fn rounded_root(n: nat) -> nat {
    let k = root_place(n);
    k * 0x80_0000 + (floor_root(4 * n / pow2(2 * k)) + 1) / 2
}

impl Single {
    /// The square root.
    pub open spec fn root(self) -> Single {
        if self.is_nan() {
            Single { bits: NAN_BITS }
        } else if self.is_zero() {
            self
        } else if self.is_negative() {
            Single { bits: NAN_BITS }
        } else if self.is_infinite() {
            self
        } else {
            signed(false, rounded_root(units(self.magnitude()) * pow2(149)))
        }
    }
}

/// What determines the whole root.
pub proof fn lemma_floor_root(n: nat)
    ensures
        floor_root(n) * floor_root(n) <= n < (floor_root(n) + 1) * (floor_root(n) + 1),
    decreases n,
{
    if n > 0 {
        let r = floor_root((n - 1) as nat);
        lemma_floor_root((n - 1) as nat);
        let t = r + 1;
        assert((t + 1) * (t + 1) == t * t + 2 * t + 1) by (nonlinear_arith);
    } else {
        let s = floor_root(n);
        assert(s * s == 0 && (s + 1) * (s + 1) == 1) by (nonlinear_arith)
            requires
                s == 0,
        ;
    }
}

proof fn lemma_floor_root_unique(n: nat, s: nat)
    requires
        s * s <= n < (s + 1) * (s + 1),
    ensures
        floor_root(n) == s,
{
    let r = floor_root(n);
    lemma_floor_root(n);
    if r < s {
        assert((r + 1) * (r + 1) <= s * s) by (nonlinear_arith)
            requires
                r + 1 <= s,
        ;
    }
    if s < r {
        assert((s + 1) * (s + 1) <= r * r) by (nonlinear_arith)
            requires
                s + 1 <= r,
        ;
    }
}

/// The place of the root of `n`, found from the powers of four around `n`.
proof fn lemma_root_place(n: nat, k: nat)
    requires
        n < pow2(48 + 2 * k),
        k > 0 ==> n >= pow2((46 + 2 * k) as nat),
    ensures
        root_place(n) == k,
    decreases k,
{
    lemma2_to64();
    lemma2_to64_rest();
    if k > 0 {
        if k > 1 {
            lemma_pow2_strictly_increases(48, (46 + 2 * k) as nat);
        }
        let i = (k - 1) as nat;
        lemma_pow2_adds(48 + 2 * i, 2);
        lemma_fundamental_div_mod(n as int, 4);
        if i > 0 {
            lemma_pow2_adds((46 + 2 * i) as nat, 2);
        }
        lemma_root_place(n / 4, i);
    }
}

/// What places the root of `n`.
pub proof fn lemma_root_place_bounds(n: nat)
    ensures
        n < pow2(48 + 2 * root_place(n)),
        root_place(n) > 0 ==> n >= pow2((46 + 2 * root_place(n)) as nat),
    decreases n,
{
    lemma2_to64();
    lemma2_to64_rest();
    if n >= 0x1_0000_0000_0000 {
        let i = root_place(n / 4);
        lemma_root_place_bounds(n / 4);
        lemma_pow2_adds(48 + 2 * i, 2);
        lemma_fundamental_div_mod(n as int, 4);
        if i > 0 {
            lemma_pow2_adds((46 + 2 * i) as nat, 2);
        }
    }
}

/// The whole root of a number of at most fifty binary digits.
fn whole_root(w: u64) -> (s: u64)
    requires
        w < 0x4_0000_0000_0000,
    ensures
        s < 0x200_0000,
        s == floor_root(w as nat),
{
    let mut s: u64 = 0;
    let mut bit: u64 = 0x200_0000;
    let ghost mut i: nat = 25;
    proof {
        lemma2_to64();
    }
    while bit > 1
        invariant
            s + bit <= 0x200_0000,
            bit == pow2(i),
            s * s <= w < (s + bit) * (s + bit),
        decreases bit,
    {
        proof {
            lemma2_to64();
            lemma_pow2_unfold(i);
            i = (i - 1) as nat;
        }
        bit = bit / 2;
        let next: u64 = s + bit;
        assert(next * next <= 0x4_0000_0000_0000) by (nonlinear_arith)
            requires
                next <= 0x200_0000,
        ;
        if next * next <= w {
            s = next;
        }
    }
    proof {
        lemma_pow2_pos(i);
        lemma_floor_root_unique(w as nat, s as nat);
    }
    s
}

impl Single {
    /// The square root.
    pub fn sqrt(self) -> (r: Single)
        ensures
            r == self.root(),
    {
        let (negative, magnitude) = self.sign_and_magnitude();
        if magnitude > INFINITY_BITS {
            Single { bits: NAN_BITS }
        } else if magnitude == 0 {
            self
        } else if negative {
            Single { bits: NAN_BITS }
        } else if magnitude == INFINITY_BITS {
            self
        } else {
            let (m, x) = split(magnitude);
            let b: u32 = bit_length(m as u128);
            proof {
                lemma2_to64();
                if b > 24 {
                    if b > 25 {
                        lemma_pow2_strictly_increases(24, (b - 1) as nat);
                    }
                    assert(false);
                }
            }
            let length: u32 = b + x + 149;
            let k: u32 = (length - 47) / 2;
            let t: u32 = x + 151 - 2 * k;
            let ghost n = units(magnitude as nat) * pow2(149);
            proof {
                lemma_root_operand(m as nat, x as nat, b as nat, k as nat, n);
            }
            let step: u128 = two_to(t);
            let w: u64 = (m as u128 * step) as u64;
            let s: u64 = whole_root(w);
            let significand: u32 = (s as u32 + 1) / 2;
            with_sign(false, k * 0x80_0000 + significand)
        }
    }
}

/// The operand of the whole root, for a significand of `b` binary digits.
proof fn lemma_root_operand(m: nat, x: nat, b: nat, k: nat, n: nat)
    requires
        1 <= b <= 24,
        x <= 253,
        pow2((b - 1) as nat) <= m < pow2(b),
        k == (b + x + 149 - 47) / 2,
        n == (m * pow2(x)) * pow2(149),
    ensures
        root_place(n) == k,
        2 * k <= x + 151,
        x + 151 - 2 * k < 128,
        m * pow2((x + 151 - 2 * k) as nat) < 0x4_0000_0000_0000,
        4 * n / pow2(2 * k) == m * pow2((x + 151 - 2 * k) as nat),
{
    let t = (x + 151 - 2 * k) as nat;
    let f = pow2((x + 149) as nat);
    let w = m * pow2(t);
    lemma2_to64();
    lemma2_to64_rest();
    lemma_pow2_adds(x, 149);
    lemma_pow2_pos((x + 149) as nat);
    lemma_pow2_adds((b - 1) as nat, (x + 149) as nat);
    lemma_pow2_adds(b, (x + 149) as nat);
    assert(n == m * f) by (nonlinear_arith)
        requires
            n == (m * pow2(x)) * pow2(149),
            f == pow2(x) * pow2(149),
    ;
    assert(pow2((b - 1) as nat) * f <= m * f < pow2(b) * f) by (nonlinear_arith)
        requires
            pow2((b - 1) as nat) <= m < pow2(b),
            f > 0,
    ;
    let length = (b + x + 149) as nat;
    if length < 48 + 2 * k {
        lemma_pow2_strictly_increases(length, 48 + 2 * k);
    }
    if 46 + 2 * k < length - 1 {
        lemma_pow2_strictly_increases((46 + 2 * k) as nat, (length - 1) as nat);
    }
    lemma_root_place(n, k);
    // 4 * n == w * 2^(2k)
    let g = pow2(2 * k);
    lemma_pow2_pos(2 * k);
    lemma_pow2_adds(2, (x + 149) as nat);
    lemma_pow2_adds(2 * k, t);
    assert(4 * n == w * g) by (nonlinear_arith)
        requires
            n == m * f,
            4 * f == g * pow2(t),
            w == m * pow2(t),
    {
        assert(4 * (m * f) == m * (4 * f));
        assert(m * (g * pow2(t)) == (m * pow2(t)) * g);
    }
    lemma_fundamental_div_mod_converse(4 * n as int, g as int, w as int, 0);
    lemma_pow2_adds(50, 2 * k);
    lemma_pow2_adds(2, 48 + 2 * k);
    assert(w < 0x4_0000_0000_0000) by (nonlinear_arith)
        requires
            w * g < 0x4_0000_0000_0000 * g,
            g > 0,
    ;
}

} // verus!
