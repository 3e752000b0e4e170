//! Conversions between binary32 numbers, whole numbers and binary64 numbers.
use crate::rounding::round_magnitude;
use crate::rounding::rounded;
use crate::rounding::truncates;
use crate::rounding::two_to;
use crate::rounding::GUARD;
use crate::rounding::INFINITY_BITS;
use crate::single::finish;
use crate::single::lemma_rounded_small;
use crate::single::nearest_single;
use crate::single::signed;
use crate::single::split;
use crate::single::units;
use crate::single::with_sign;
use crate::single::Single;
use crate::single::NAN_BITS;
use vstd::arithmetic::div_mod::lemma_fundamental_div_mod;
use vstd::arithmetic::div_mod::lemma_fundamental_div_mod_converse;
use vstd::arithmetic::power2::lemma2_to64;
use vstd::arithmetic::power2::lemma_pow2_adds;
use vstd::arithmetic::power2::lemma_pow2_pos;
use vstd::arithmetic::power2::lemma_pow2_strictly_increases;
use vstd::arithmetic::power2::pow2;
use vstd::prelude::*;

verus! {

/// The number nearest to a whole number.
pub open spec fn of_int(v: int) -> Single {
    nearest_single(v * pow2(149), 1, false)
}

/// The number of 2^-1074 units in the finite binary64 magnitude with bits `b`.
pub open spec fn double_units(b: nat) -> nat {
    let exponent = b / 0x10_0000_0000_0000;
    let fraction = b % 0x10_0000_0000_0000;
    if exponent == 0 {
        fraction
    } else {
        (0x10_0000_0000_0000 + fraction) * pow2((exponent - 1) as nat)
    }
}

/// The number nearest to the binary64 number with the pattern `bits`.
pub open spec fn narrowed(bits: u64) -> Single {
    let negative = bits >= 0x8000_0000_0000_0000;
    let magnitude = (if negative {
        bits - 0x8000_0000_0000_0000
    } else {
        bits as int
    }) as nat;
    if magnitude > 0x7ff0_0000_0000_0000 {
        Single { bits: NAN_BITS }
    } else if magnitude == 0x7ff0_0000_0000_0000 {
        signed(negative, INFINITY_BITS as nat)
    } else {
        signed(negative, rounded(double_units(magnitude), pow2(925)))
    }
}


impl Single {
    /// The whole part as an index: zero for NaN and below zero, and never above
    /// the largest index.
    pub open spec fn whole_part(self) -> nat {
        if self.is_nan() || self.is_negative() {
            0
        } else if self.is_infinite() || units(self.magnitude()) / pow2(149) > usize::MAX {
            usize::MAX as nat
        } else {
            units(self.magnitude()) / pow2(149)
        }
    }
}

/// A whole number in guard steps.
proof fn lemma_whole_steps(m: nat)
    ensures
        truncates(m, 405, false, m * pow2(149), 1),
{
    let p = pow2(GUARD as nat);
    lemma_pow2_adds(149, GUARD as nat);
    lemma_pow2_pos(405);
    assert(m * (pow2(405) * 1) == (m * pow2(149)) * p) by (nonlinear_arith)
        requires
            pow2(405) == pow2(149) * p,
    ;
    assert(m * (pow2(405) * 1) < (m + 1) * (pow2(405) * 1)) by (nonlinear_arith)
        requires
            pow2(405) > 0,
    ;
}

impl Single {
    /// The number nearest to a count.
    pub fn from_usize(v: usize) -> (r: Single)
        ensures
            r == of_int(v as int),
    {
        let ghost n = v * pow2(149);
        proof {
            lemma_pow2_pos(149);
            lemma_whole_steps(v as nat);
            assert(v == 0 ==> v * pow2(149) == 0) by (nonlinear_arith);
            assert(v > 0 ==> v * pow2(149) > 0) by (nonlinear_arith)
                requires
                    pow2(149) > 0,
            ;
        }
        if v == 0 {
            with_sign(false, 0)
        } else {
            finish(false, v as u128, 405, false, false, Ghost(n), Ghost(1))
        }
    }

    /// The number nearest to a signed whole number.
    pub fn from_i32(v: i32) -> (r: Single)
        ensures
            r == of_int(v as int),
    {
        let ghost n = v * pow2(149);
        let wide: i64 = v as i64;
        let size: u64 = if wide < 0 {
            (-wide) as u64
        } else {
            wide as u64
        };
        proof {
            lemma_pow2_pos(149);
            lemma_whole_steps(size as nat);
            assert(v == 0 ==> v * pow2(149) == 0) by (nonlinear_arith);
            assert(v > 0 ==> v * pow2(149) > 0) by (nonlinear_arith)
                requires
                    pow2(149) > 0,
            ;
            assert(v < 0 ==> v * pow2(149) < 0) by (nonlinear_arith)
                requires
                    pow2(149) > 0,
            ;
            assert(v < 0 ==> -(v * pow2(149)) == size * pow2(149)) by (nonlinear_arith)
                requires
                    v < 0 ==> size == -v,
            ;
        }
        if v == 0 {
            with_sign(false, 0)
        } else {
            finish(v < 0, size as u128, 405, false, false, Ghost(n), Ghost(1))
        }
    }

    /// The number nearest to the binary64 number with the pattern `bits`.
    pub fn from_double(bits: u64) -> (r: Single)
        ensures
            r == narrowed(bits),
    {
        let negative: bool = bits >= 0x8000_0000_0000_0000;
        let magnitude: u64 = if negative {
            bits - 0x8000_0000_0000_0000
        } else {
            bits
        };
        if magnitude > 0x7ff0_0000_0000_0000 {
            return Single { bits: NAN_BITS };
        }
        if magnitude == 0x7ff0_0000_0000_0000 {
            return with_sign(negative, INFINITY_BITS);
        }
        let exponent: u64 = magnitude / 0x10_0000_0000_0000;
        let fraction: u64 = magnitude % 0x10_0000_0000_0000;
        let ghost n = double_units(magnitude as nat);
        let ghost d = pow2(925);
        proof {
            lemma2_to64();
            lemma_pow2_pos(925);
        }
        if exponent < 670 {
            // Far below half of the smallest positive number.
            proof {
                lemma_tiny(exponent as nat, fraction as nat, n);
                lemma_rounded_small(n, d);
            }
            with_sign(negative, 0)
        } else {
            let m: u64 = 0x10_0000_0000_0000 + fraction;
            proof {
                lemma_double_steps(m as nat, (exponent - 1) as nat);
            }
            let magnitude: u32 = round_magnitude(
                m as u128,
                exponent as u32 - 670,
                false,
                Ghost(n),
                Ghost(d),
            );
            with_sign(negative, magnitude)
        }
    }

    /// The whole part as an index.
    pub fn to_usize(self) -> (r: usize)
        ensures
            r == self.whole_part(),
    {
        let (negative, magnitude) = self.sign_and_magnitude();
        if magnitude > INFINITY_BITS || negative {
            return 0;
        }
        if magnitude == INFINITY_BITS {
            return usize::MAX;
        }
        let (m, x) = split(magnitude);
        proof {
            lemma2_to64();
        }
        let whole: u128 = if x >= 149 {
            let up: u128 = two_to(x - 149);
            proof {
                let j = (x - 149) as nat;
                lemma_pow2_adds(149, j);
                lemma_pow2_pos(149);
                lemma_pow2_adds(24, 104);
                lemma_pow2_adds(64, 64);
                if j < 104 {
                    lemma_pow2_strictly_increases(j, 104);
                }
                assert(m * up <= 0x100_0000 * pow2(104)) by (nonlinear_arith)
                    requires
                        m <= 0x100_0000,
                        up <= pow2(104),
                ;
                lemma_pow2_pos(j);
                assert(m * up < 0x100_0000 * up) by (nonlinear_arith)
                    requires
                        m < 0x100_0000,
                        up > 0,
                ;
                assert(0x100_0000 * up <= 0x100_0000 * pow2(104));
                assert(m * (pow2(149) * pow2(j)) == (m * up) * pow2(149)) by (nonlinear_arith)
                    requires
                        up == pow2(j),
                ;
                lemma_fundamental_div_mod_converse(
                    units(magnitude as nat) as int,
                    pow2(149) as int,
                    m * up,
                    0,
                );
            }
            m as u128 * up
        } else {
            let j: u32 = 149 - x;
            let ghost w = pow2(j as nat);
            proof {
                lemma_pow2_pos(x as nat);
                lemma_pow2_pos(j as nat);
                lemma_pow2_adds(x as nat, j as nat);
                lemma_fundamental_div_mod(m as int, w as int);
                let q = m as int / w as int;
                let r = m as int % w as int;
                let g = pow2(x as nat);
                assert(m * g == (g * w) * q + r * g && 0 <= r * g < g * w) by (nonlinear_arith)
                    requires
                        m == w * q + r,
                        0 <= r < w,
                        g > 0,
                ;
                lemma_fundamental_div_mod_converse(m * g, (g * w) as int, q, r * g);
            }
            if j >= 32 {
                proof {
                    if j > 32 {
                        lemma_pow2_strictly_increases(32, j as nat);
                    }
                    lemma_fundamental_div_mod_converse(m as int, w as int, 0, m as int);
                }
                0
            } else {
                m as u128 / two_to(j)
            }
        };
        if whole > usize::MAX as u128 {
            usize::MAX
        } else {
            whole as usize
        }
    }
}

/// A binary64 magnitude in guard steps.
proof fn lemma_double_steps(m: nat, x: nat)
    requires
        x >= 669,
    ensures
        truncates(m, (x - 669) as nat, false, m * pow2(x), pow2(925)),
{
    let e = (x - 669) as nat;
    let p = pow2(GUARD as nat);
    let y = pow2(e) * pow2(925);
    lemma_pow2_adds(e, 925);
    lemma_pow2_adds(x, GUARD as nat);
    lemma_pow2_pos(e + 925);
    assert(m * y == (m * pow2(x)) * p) by (nonlinear_arith)
        requires
            y == pow2(x) * p,
    ;
    assert(m * y < (m + 1) * y) by (nonlinear_arith)
        requires
            y > 0,
    ;
}

proof fn lemma_tiny(exponent: nat, fraction: nat, n: nat)
    requires
        exponent < 670,
        fraction < 0x10_0000_0000_0000,
        n == (if exponent == 0 {
            fraction
        } else {
            (0x10_0000_0000_0000 + fraction) * pow2((exponent - 1) as nat)
        }),
    ensures
        2 * n < pow2(925),
{
    lemma2_to64();
    lemma_pow2_strictly_increases(64, 925);
    if exponent > 0 {
        let x = (exponent - 1) as nat;
        lemma_pow2_pos(x);
        lemma_pow2_adds(64, x);
        lemma_pow2_strictly_increases(64 + x, 925);
        assert(2 * n < 0x1_0000_0000_0000_0000 * pow2(x)) by (nonlinear_arith)
            requires
                n == (0x10_0000_0000_0000 + fraction) * pow2(x),
                fraction < 0x10_0000_0000_0000,
                pow2(x) > 0,
        ;
    }
}

} // verus!
