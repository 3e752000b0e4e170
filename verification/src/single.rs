//! Binary32 arithmetic on bit patterns.
//!
//! A [`Single`] is the bit pattern of a binary32 number. Its arithmetic follows
//! IEEE 754: the exact result, rounded to the nearest representable value with
//! halves going to the even significand.
use crate::rounding::round_magnitude;
use crate::rounding::rounded;
use crate::rounding::truncates;
use crate::rounding::two_to;
use crate::rounding::GUARD;
use crate::rounding::INFINITY_BITS;
use vstd::arithmetic::div_mod::lemma_fundamental_div_mod;
use vstd::arithmetic::div_mod::lemma_fundamental_div_mod_converse;
use vstd::arithmetic::power2::lemma2_to64;
use vstd::arithmetic::power2::lemma2_to64_rest;
use vstd::arithmetic::power2::lemma_pow2_adds;
use vstd::arithmetic::power2::lemma_pow2_pos;
use vstd::arithmetic::power2::lemma_pow2_strictly_increases;
use vstd::arithmetic::power2::pow2;
use vstd::prelude::*;

verus! {

/// The bit of a pattern that holds the sign.
pub const SIGN_BIT: u32 = 0x8000_0000;

/// The quiet NaN that arithmetic returns.
pub const NAN_BITS: u32 = 0x7fc0_0000;

/// A binary32 number, held as its bit pattern. `==` compares patterns.
#[derive(Clone, Copy, Debug, PartialEq, Eq, Structural)]
pub struct Single {
    pub bits: u32,
}

/// The number of 2^-149 units in the finite magnitude with bits `b`.
pub open spec fn units(b: nat) -> nat {
    let exponent = b / 0x80_0000;
    let fraction = b % 0x80_0000;
    if exponent == 0 {
        fraction
    } else {
        (0x80_0000 + fraction) * pow2((exponent - 1) as nat)
    }
}

/// The number with the given sign and magnitude bits.
pub open spec fn signed(negative: bool, magnitude: nat) -> Single {
    Single {
        bits: (if negative {
            SIGN_BIT + magnitude
        } else {
            magnitude as int
        }) as u32,
    }
}

/// The number nearest to `n / d` units; an exact zero takes the sign given.
pub open spec fn nearest_single(n: int, d: nat, zero_negative: bool) -> Single {
    if n == 0 {
        signed(zero_negative, 0)
    } else if n < 0 {
        signed(true, rounded((-n) as nat, d))
    } else {
        signed(false, rounded(n as nat, d))
    }
}

impl Single {
    pub open spec fn is_negative(self) -> bool {
        self.bits >= SIGN_BIT
    }

    pub open spec fn magnitude(self) -> nat {
        (if self.is_negative() {
            self.bits - SIGN_BIT
        } else {
            self.bits as int
        }) as nat
    }

    pub open spec fn is_nan(self) -> bool {
        self.magnitude() > INFINITY_BITS
    }

    pub open spec fn is_infinite(self) -> bool {
        self.magnitude() == INFINITY_BITS
    }

    pub open spec fn is_finite(self) -> bool {
        self.magnitude() < INFINITY_BITS
    }

    pub open spec fn is_zero(self) -> bool {
        self.magnitude() == 0
    }

    /// The value of a finite number, in units of 2^-149.
    pub open spec fn value(self) -> int {
        if self.is_negative() {
            -(units(self.magnitude()) as int)
        } else {
            units(self.magnitude()) as int
        }
    }

    /// The place of a number that is no NaN in the order of all of them; the two
    /// zeros share one place.
    pub open spec fn rank(self) -> int {
        if self.is_negative() {
            -(self.magnitude() as int)
        } else {
            self.magnitude() as int
        }
    }

    /// `self < other`; false where one of them is NaN.
    pub open spec fn below(self, other: Single) -> bool {
        !self.is_nan() && !other.is_nan() && self.rank() < other.rank()
    }

    /// `self`, or the end of the range from `low` to `high` that it lies beyond.
    pub open spec fn clamped(self, low: Single, high: Single) -> Single {
        if self.below(low) {
            low
        } else if high.below(self) {
            high
        } else {
            self
        }
    }

    /// `-self`.
    pub open spec fn negated(self) -> Single {
        signed(!self.is_negative(), self.magnitude())
    }

    /// `self + other`.
    pub open spec fn plus(self, other: Single) -> Single {
        if self.is_nan() || other.is_nan() {
            Single { bits: NAN_BITS }
        } else if self.is_infinite() {
            if other.is_infinite() && other.is_negative() != self.is_negative() {
                Single { bits: NAN_BITS }
            } else {
                self
            }
        } else if other.is_infinite() {
            other
        } else {
            nearest_single(
                self.value() + other.value(),
                1,
                self.is_negative() && other.is_negative(),
            )
        }
    }

    /// `self - other`.
    pub open spec fn minus(self, other: Single) -> Single {
        self.plus(other.negated())
    }

    /// `self * other`.
    pub open spec fn times(self, other: Single) -> Single {
        let negative = self.is_negative() != other.is_negative();
        if self.is_nan() || other.is_nan() {
            Single { bits: NAN_BITS }
        } else if self.is_infinite() || other.is_infinite() {
            if self.is_zero() || other.is_zero() {
                Single { bits: NAN_BITS }
            } else {
                signed(negative, INFINITY_BITS as nat)
            }
        } else {
            nearest_single(self.value() * other.value(), pow2(149), negative)
        }
    }

    /// `self / other`.
    pub open spec fn over(self, other: Single) -> Single {
        let negative = self.is_negative() != other.is_negative();
        if self.is_nan() || other.is_nan() {
            Single { bits: NAN_BITS }
        } else if self.is_infinite() {
            if other.is_infinite() {
                Single { bits: NAN_BITS }
            } else {
                signed(negative, INFINITY_BITS as nat)
            }
        } else if other.is_infinite() {
            signed(negative, 0)
        } else if other.is_zero() {
            if self.is_zero() {
                Single { bits: NAN_BITS }
            } else {
                signed(negative, INFINITY_BITS as nat)
            }
        } else {
            signed(
                negative,
                rounded(units(self.magnitude()) * pow2(149), units(other.magnitude())),
            )
        }
    }

    /// `self * factor + addend`, rounded once.
    pub open spec fn fused(self, factor: Single, addend: Single) -> Single {
        let negative = self.is_negative() != factor.is_negative();
        if self.is_nan() || factor.is_nan() || addend.is_nan() {
            Single { bits: NAN_BITS }
        } else if self.is_infinite() || factor.is_infinite() {
            if self.is_zero() || factor.is_zero() || (addend.is_infinite() && addend.is_negative()
                != negative) {
                Single { bits: NAN_BITS }
            } else {
                signed(negative, INFINITY_BITS as nat)
            }
        } else if addend.is_infinite() {
            addend
        } else {
            nearest_single(
                self.value() * factor.value() + addend.value() * pow2(149),
                pow2(149),
                negative && addend.is_negative(),
            )
        }
    }
}

/// The significand and the exponent of a finite magnitude.
pub(crate) fn split(magnitude: u32) -> (r: (u32, u32))
    requires
        magnitude < INFINITY_BITS,
    ensures
        r.0 * pow2(r.1 as nat) == units(magnitude as nat),
        r.0 < 0x100_0000,
        r.1 <= 253,
        r.0 == 0 <==> magnitude == 0,
{
    let exponent: u32 = magnitude / 0x80_0000;
    let fraction: u32 = magnitude % 0x80_0000;
    if exponent == 0 {
        proof {
            lemma2_to64();
            assert(fraction * pow2(0) == fraction) by (nonlinear_arith)
                requires
                    pow2(0) == 1,
            ;
        }
        (fraction, 0)
    } else {
        (0x80_0000 + fraction, exponent - 1)
    }
}

/// The number with the given sign and magnitude bits.
pub(crate) fn with_sign(negative: bool, magnitude: u32) -> (r: Single)
    requires
        magnitude < SIGN_BIT,
    ensures
        r == signed(negative, magnitude as nat),
{
    if negative {
        Single { bits: SIGN_BIT + magnitude }
    } else {
        Single { bits: magnitude }
    }
}

/// Rounds the sum of `m1 * 2^e1` and `m2 * 2^e2` guard steps, each with its sign.
/// The sum is `n / d` units.
fn combine(
    neg1: bool,
    m1: u64,
    e1: u32,
    neg2: bool,
    m2: u64,
    e2: u32,
    zero_negative: bool,
    Ghost(n): Ghost<int>,
    Ghost(d): Ghost<nat>,
) -> (r: Single)
    requires
        d > 0,
        m1 < 0x1_0000_0000_0000,
        m2 < 0x1_0000_0000_0000,
        e1 <= 0x800,
        e2 <= 0x800,
        n * pow2(GUARD as nat) == steps(neg1, m1 as nat, e1 as nat, d) + steps(
            neg2,
            m2 as nat,
            e2 as nat,
            d,
        ),
    ensures
        r == nearest_single(n, d, zero_negative),
{
    if e1 >= e2 {
        combine_ordered(neg1, m1, e1, neg2, m2, e2, zero_negative, Ghost(n), Ghost(d))
    } else {
        combine_ordered(neg2, m2, e2, neg1, m1, e1, zero_negative, Ghost(n), Ghost(d))
    }
}

/// `m * 2^e` guard steps with a sign, times `d`.
spec fn steps(negative: bool, m: nat, e: nat, d: nat) -> int {
    if negative {
        -((m * (pow2(e) * d)) as int)
    } else {
        (m * (pow2(e) * d)) as int
    }
}

/// Rounds a non-zero number of guard steps with its sign.
pub(crate) fn finish(
    negative: bool,
    m: u128,
    e: u32,
    sticky: bool,
    zero_negative: bool,
    Ghost(n): Ghost<int>,
    Ghost(d): Ghost<nat>,
) -> (r: Single)
    requires
        d > 0,
        0 < m < 0x8000_0000_0000_0000_0000_0000_0000_0000,
        e <= 0x1000,
        sticky ==> m >= 0x200_0000,
        negative ==> n < 0 && truncates(m as nat, e as nat, sticky, (-n) as nat, d),
        !negative ==> n > 0 && truncates(m as nat, e as nat, sticky, n as nat, d),
    ensures
        r == nearest_single(n, d, zero_negative),
{
    let magnitude: u32 = round_magnitude(
        m,
        e,
        sticky,
        Ghost(
            if negative {
                (-n) as nat
            } else {
                n as nat
            },
        ),
        Ghost(d),
    );
    with_sign(negative, magnitude)
}

/// [`combine`] for `e1 >= e2`.
fn combine_ordered(
    neg1: bool,
    m1: u64,
    e1: u32,
    neg2: bool,
    m2: u64,
    e2: u32,
    zero_negative: bool,
    Ghost(n): Ghost<int>,
    Ghost(d): Ghost<nat>,
) -> (r: Single)
    requires
        d > 0,
        m1 < 0x1_0000_0000_0000,
        m2 < 0x1_0000_0000_0000,
        e2 <= e1 <= 0x800,
        n * pow2(GUARD as nat) == steps(neg1, m1 as nat, e1 as nat, d) + steps(
            neg2,
            m2 as nat,
            e2 as nat,
            d,
        ),
    ensures
        r == nearest_single(n, d, zero_negative),
{
    let ghost p = pow2(GUARD as nat) as int;
    let ghost y1 = pow2(e1 as nat) * d;
    let ghost y2 = pow2(e2 as nat) * d;
    proof {
        lemma2_to64();
        lemma2_to64_rest();
        lemma_pow2_pos(GUARD as nat);
        lemma_pow2_pos(e1 as nat);
        lemma_pow2_pos(e2 as nat);
        assert(y1 > 0) by (nonlinear_arith)
            requires
                y1 == pow2(e1 as nat) * d,
                pow2(e1 as nat) > 0,
                d > 0,
        ;
        assert(y2 > 0) by (nonlinear_arith)
            requires
                y2 == pow2(e2 as nat) * d,
                pow2(e2 as nat) > 0,
                d > 0,
        ;
        assert(m1 == 0 ==> m1 * y1 == 0) by (nonlinear_arith);
        assert(m2 == 0 ==> m2 * y2 == 0) by (nonlinear_arith);
    }
    if m1 == 0 && m2 == 0 {
        proof {
            assert(n == 0) by (nonlinear_arith)
                requires
                    n * p == 0,
                    p > 0,
            ;
        }
        return with_sign(zero_negative, 0);
    }
    if m1 == 0 {
        proof {
            lemma_positive_product(m2 as nat, y2);
            lemma_absolute(n, p, (m2 * y2) as int, neg2);
            assert((m2 + 1) * y2 == m2 * y2 + y2) by (nonlinear_arith);
        }
        return finish(neg2, m2 as u128, e2, false, zero_negative, Ghost(n), Ghost(d));
    }
    if m2 == 0 {
        proof {
            lemma_positive_product(m1 as nat, y1);
            lemma_absolute(n, p, (m1 * y1) as int, neg1);
            assert((m1 + 1) * y1 == m1 * y1 + y1) by (nonlinear_arith);
        }
        return finish(neg1, m1 as u128, e1, false, zero_negative, Ghost(n), Ghost(d));
    }
    let difference: u32 = e1 - e2;
    let shift: u32 = if difference <= 72 {
        difference
    } else {
        72
    };
    let extra: u32 = difference - shift;
    let e: u32 = e1 - shift;
    let scale: u128 = two_to(shift);
    proof {
        lemma_pow2_adds(64, 8);
        if shift < 72 {
            lemma_pow2_strictly_increases(shift as nat, 72);
        }
        lemma_pow2_pos(shift as nat);
        assert(scale <= m1 * scale < 0x1_0000_0000_0000 * 0x100_0000_0000_0000_0000)
            by (nonlinear_arith)
            requires
                1 <= m1 < 0x1_0000_0000_0000,
                0 < scale <= 0x100_0000_0000_0000_0000,
        ;
    }
    let big: u128 = m1 as u128 * scale;
    let (t, sticky): (u64, bool) = if extra >= 64 {
        proof {
            if extra > 64 {
                lemma_pow2_strictly_increases(64, extra as nat);
            }
            lemma_fundamental_div_mod_converse(
                m2 as int,
                pow2(extra as nat) as int,
                0,
                m2 as int,
            );
        }
        (0, true)
    } else {
        let down: u128 = two_to(extra);
        proof {
            lemma_pow2_strictly_increases(extra as nat, 64);
            lemma_pow2_pos(extra as nat);
        }
        let down: u64 = down as u64;
        (m2 / down, m2 % down != 0)
    };
    let ghost y = pow2(e as nat) * d;
    let ghost z = (m2 * y2) as int;
    let ghost x = (big * y) as int;
    proof {
        lemma_aligned(m1 as nat, e1 as nat, shift as nat, e as nat, d, big as nat);
        lemma_shifted(m2 as nat, e2 as nat, extra as nat, e as nat, d, t as nat, sticky);
        lemma_positive_product(m1 as nat, y1);
        lemma_positive_product(m2 as nat, y2);
        lemma_quotient_at_most(m2 as nat, pow2(extra as nat));
        lemma_pow2_pos(e as nat);
        assert(y > 0) by (nonlinear_arith)
            requires
                y == pow2(e as nat) * d,
                pow2(e as nat) > 0,
                d > 0,
        ;
    }
    if neg1 == neg2 {
        let m: u128 = big + t as u128;
        proof {
            assert(m * y == big * y + t * y) by (nonlinear_arith)
                requires
                    m == big + t,
            ;
            assert((m + 1) * y == big * y + (t + 1) * y) by (nonlinear_arith)
                requires
                    m == big + t,
            ;
            lemma_absolute(n, p, x + z, neg1);
        }
        finish(neg1, m, e, sticky, zero_negative, Ghost(n), Ghost(d))
    } else if big > t as u128 {
        let m: u128 = if sticky {
            big - t as u128 - 1
        } else {
            big - t as u128
        };
        proof {
            assert((t + 1) * y == t * y + y) by (nonlinear_arith);
            assert((m + 1) * y == m * y + y) by (nonlinear_arith);
            if sticky {
                assert(m * y == big * y - t * y - y) by (nonlinear_arith)
                    requires
                        m == big - t - 1,
                ;
            } else {
                assert(m * y == big * y - t * y) by (nonlinear_arith)
                    requires
                        m == big - t,
                ;
            }
            lemma_positive_product(m as nat, y);
            lemma_absolute(n, p, x - z, neg1);
        }
        finish(neg1, m, e, sticky, zero_negative, Ghost(n), Ghost(d))
    } else if big == t as u128 {
        proof {
            assert(n == 0) by (nonlinear_arith)
                requires
                    n * p == 0,
                    p > 0,
            ;
        }
        with_sign(zero_negative, 0)
    } else {
        let m: u128 = t as u128 - big;
        proof {
            assert((m + 1) * y == m * y + y) by (nonlinear_arith);
            assert(m * y == t * y - big * y) by (nonlinear_arith)
                requires
                    m == t - big,
            ;
            lemma_positive_product(m as nat, y);
            lemma_absolute(n, p, z - x, neg2);
        }
        finish(neg2, m, e, false, zero_negative, Ghost(n), Ghost(d))
    }
}

proof fn lemma_positive_product(a: nat, b: nat)
    requires
        a > 0,
        b > 0,
    ensures
        a * b > 0,
{
    assert(a * b > 0) by (nonlinear_arith)
        requires
            a > 0,
            b > 0,
    ;
}

proof fn lemma_quotient_at_most(a: nat, b: nat)
    requires
        b > 0,
    ensures
        a / b <= a,
{
    lemma_fundamental_div_mod(a as int, b as int);
    assert(a / b <= a) by (nonlinear_arith)
        requires
            b * (a / b) <= a,
            b > 0,
    ;
}

/// The sign and the absolute value of `n` from those of `n * p`.
proof fn lemma_absolute(n: int, p: int, x: int, negative: bool)
    requires
        p > 0,
        x > 0,
        n * p == (if negative {
            -x
        } else {
            x
        }),
    ensures
        negative ==> n < 0 && (-n) * p == x,
        !negative ==> n > 0,
{
    assert((-n) * p == -(n * p)) by (nonlinear_arith);
    assert(negative ==> n < 0) by (nonlinear_arith)
        requires
            p > 0,
            negative ==> n * p < 0,
    ;
    assert(!negative ==> n > 0) by (nonlinear_arith)
        requires
            p > 0,
            !negative ==> n * p > 0,
    ;
}

/// Shifting a significand up leaves its value.
proof fn lemma_aligned(m: nat, e: nat, shift: nat, low: nat, d: nat, big: nat)
    requires
        e == low + shift,
        big == m * pow2(shift),
    ensures
        m * (pow2(e) * d) == big * (pow2(low) * d),
{
    lemma_pow2_adds(low, shift);
    assert(m * ((pow2(low) * pow2(shift)) * d) == (m * pow2(shift)) * (pow2(low) * d))
        by (nonlinear_arith);
}

/// Shifting a significand down cuts its value to whole steps.
proof fn lemma_shifted(m: nat, e: nat, extra: nat, high: nat, d: nat, t: nat, sticky: bool)
    requires
        d > 0,
        high == e + extra,
        t == m / pow2(extra),
        sticky <==> m % pow2(extra) != 0,
    ensures
        t * (pow2(high) * d) <= m * (pow2(e) * d) < (t + 1) * (pow2(high) * d),
        sticky <==> t * (pow2(high) * d) < m * (pow2(e) * d),
{
    let w = pow2(extra);
    let y = pow2(e) * d;
    lemma_pow2_pos(extra);
    lemma_pow2_pos(e);
    lemma_pow2_adds(e, extra);
    lemma_fundamental_div_mod(m as int, w as int);
    let rem = m % w;
    lemma_positive_product(pow2(e), d);
    assert(pow2(high) * d == w * y) by (nonlinear_arith)
        requires
            pow2(high) == pow2(e) * w,
            y == pow2(e) * d,
    ;
    assert(m * y == t * (w * y) + rem * y) by (nonlinear_arith)
        requires
            m == w * t + rem,
    ;
    assert((t + 1) * (w * y) == t * (w * y) + w * y) by (nonlinear_arith);
    assert(rem * y < w * y) by (nonlinear_arith)
        requires
            rem < w,
            y > 0,
    ;
    assert(rem > 0 ==> rem * y > 0) by (nonlinear_arith)
        requires
            y > 0,
    ;
    assert(rem == 0 ==> rem * y == 0) by (nonlinear_arith);
}

impl Single {
    pub(crate) fn sign_and_magnitude(self) -> (r: (bool, u32))
        ensures
            r.0 == self.is_negative(),
            r.1 == self.magnitude(),
    {
        if self.bits >= SIGN_BIT {
            (true, self.bits - SIGN_BIT)
        } else {
            (false, self.bits)
        }
    }

    /// `self < other`; false where one of them is NaN.
    pub fn is_below(self, other: Single) -> (r: bool)
        ensures
            r == self.below(other),
    {
        let (neg1, mag1) = self.sign_and_magnitude();
        let (neg2, mag2) = other.sign_and_magnitude();
        if mag1 > INFINITY_BITS || mag2 > INFINITY_BITS {
            false
        } else if neg1 && neg2 {
            mag2 < mag1
        } else if neg1 {
            mag1 > 0 || mag2 > 0
        } else if neg2 {
            false
        } else {
            mag1 < mag2
        }
    }

    /// Whether this is a NaN.
    pub fn is_a_nan(self) -> (r: bool)
        ensures
            r == self.is_nan(),
    {
        let (_, magnitude) = self.sign_and_magnitude();
        magnitude > INFINITY_BITS
    }

    /// `self`, or the end of the range from `low` to `high` that it lies beyond.
    pub fn clamp(self, low: Single, high: Single) -> (r: Single)
        ensures
            r == self.clamped(low, high),
    {
        if self.is_below(low) {
            low
        } else if high.is_below(self) {
            high
        } else {
            self
        }
    }

    /// `-self`.
    pub fn neg(self) -> (r: Single)
        ensures
            r == self.negated(),
    {
        let (negative, magnitude) = self.sign_and_magnitude();
        with_sign(!negative, magnitude)
    }

    /// `self + other`.
    pub fn add(self, other: Single) -> (r: Single)
        ensures
            r == self.plus(other),
    {
        let (neg1, mag1) = self.sign_and_magnitude();
        let (neg2, mag2) = other.sign_and_magnitude();
        if mag1 > INFINITY_BITS || mag2 > INFINITY_BITS {
            Single { bits: NAN_BITS }
        } else if mag1 == INFINITY_BITS {
            if mag2 == INFINITY_BITS && neg2 != neg1 {
                Single { bits: NAN_BITS }
            } else {
                self
            }
        } else if mag2 == INFINITY_BITS {
            other
        } else {
            let (m1, x1) = split(mag1);
            let (m2, x2) = split(mag2);
            proof {
                lemma_guard_steps(neg1, m1 as nat, x1 as nat, 1);
                lemma_guard_steps(neg2, m2 as nat, x2 as nat, 1);
                lemma_distributes(self.value(), other.value(), pow2(GUARD as nat) as int);
            }
            combine(
                neg1,
                m1 as u64,
                x1 + GUARD,
                neg2,
                m2 as u64,
                x2 + GUARD,
                neg1 && neg2,
                Ghost(self.value() + other.value()),
                Ghost(1),
            )
        }
    }

    /// `self - other`.
    pub fn sub(self, other: Single) -> (r: Single)
        ensures
            r == self.minus(other),
    {
        self.add(other.neg())
    }
}

impl Single {
    /// `self * factor + addend`, rounded once.
    pub fn mul_add(self, factor: Single, addend: Single) -> (r: Single)
        ensures
            r == self.fused(factor, addend),
    {
        let (neg1, mag1) = self.sign_and_magnitude();
        let (neg2, mag2) = factor.sign_and_magnitude();
        let (neg3, mag3) = addend.sign_and_magnitude();
        let negative: bool = neg1 != neg2;
        if mag1 > INFINITY_BITS || mag2 > INFINITY_BITS || mag3 > INFINITY_BITS {
            Single { bits: NAN_BITS }
        } else if mag1 == INFINITY_BITS || mag2 == INFINITY_BITS {
            if mag1 == 0 || mag2 == 0 || (mag3 == INFINITY_BITS && neg3 != negative) {
                Single { bits: NAN_BITS }
            } else {
                with_sign(negative, INFINITY_BITS)
            }
        } else if mag3 == INFINITY_BITS {
            addend
        } else {
            let (m1, x1) = split(mag1);
            let (m2, x2) = split(mag2);
            let (m3, x3) = split(mag3);
            let ghost a = self.value() * factor.value();
            let ghost c = addend.value() * pow2(149);
            proof {
                lemma_product_steps(
                    neg1,
                    m1 as nat,
                    x1 as nat,
                    neg2,
                    m2 as nat,
                    x2 as nat,
                );
                lemma_guard_steps(neg3, m3 as nat, x3 as nat, pow2(149));
                lemma_distributes(a, c, pow2(GUARD as nat) as int);
                lemma_swap(addend.value(), pow2(GUARD as nat) as int, pow2(149) as int);
                lemma_pow2_pos(149);
                lemma_small_product(m1, m2);
            }
            combine(
                negative,
                m1 as u64 * m2 as u64,
                x1 + x2 + 107,
                neg3,
                m3 as u64,
                x3 + GUARD,
                negative && neg3,
                Ghost(a + c),
                Ghost(pow2(149)),
            )
        }
    }

    /// `self * other`.
    pub fn mul(self, other: Single) -> (r: Single)
        ensures
            r == self.times(other),
    {
        let (neg1, mag1) = self.sign_and_magnitude();
        let (neg2, mag2) = other.sign_and_magnitude();
        let negative: bool = neg1 != neg2;
        if mag1 > INFINITY_BITS || mag2 > INFINITY_BITS {
            Single { bits: NAN_BITS }
        } else if mag1 == INFINITY_BITS || mag2 == INFINITY_BITS {
            if mag1 == 0 || mag2 == 0 {
                Single { bits: NAN_BITS }
            } else {
                with_sign(negative, INFINITY_BITS)
            }
        } else {
            let (m1, x1) = split(mag1);
            let (m2, x2) = split(mag2);
            proof {
                lemma_product_steps(
                    neg1,
                    m1 as nat,
                    x1 as nat,
                    neg2,
                    m2 as nat,
                    x2 as nat,
                );
                lemma_pow2_pos(149);
                lemma_small_product(m1, m2);
                assert(0 * (pow2(0) * pow2(149)) == 0) by (nonlinear_arith);
            }
            combine(
                negative,
                m1 as u64 * m2 as u64,
                x1 + x2 + 107,
                false,
                0,
                0,
                negative,
                Ghost(self.value() * other.value()),
                Ghost(pow2(149)),
            )
        }
    }

    /// `self / other`.
    pub fn div(self, other: Single) -> (r: Single)
        ensures
            r == self.over(other),
    {
        let (neg1, mag1) = self.sign_and_magnitude();
        let (neg2, mag2) = other.sign_and_magnitude();
        let negative: bool = neg1 != neg2;
        if mag1 > INFINITY_BITS || mag2 > INFINITY_BITS {
            Single { bits: NAN_BITS }
        } else if mag1 == INFINITY_BITS {
            if mag2 == INFINITY_BITS {
                Single { bits: NAN_BITS }
            } else {
                with_sign(negative, INFINITY_BITS)
            }
        } else if mag2 == INFINITY_BITS {
            with_sign(negative, 0)
        } else if mag2 == 0 {
            if mag1 == 0 {
                Single { bits: NAN_BITS }
            } else {
                with_sign(negative, INFINITY_BITS)
            }
        } else {
            let (m1, x1) = split(mag1);
            let (m2, x2) = split(mag2);
            let ghost n = units(mag1 as nat) * pow2(149);
            let ghost d = units(mag2 as nat);
            proof {
                lemma_pow2_pos(x2 as nat);
                lemma_positive_product(m2 as nat, pow2(x2 as nat));
            }
            if mag1 == 0 {
                proof {
                    assert(n == 0) by (nonlinear_arith)
                        requires
                            n == units(mag1 as nat) * pow2(149),
                            units(mag1 as nat) == 0,
                    ;
                    lemma_rounded_small(0, d);
                }
                with_sign(negative, 0)
            } else {
                let dividend: u128 = m1 as u128 * 0x1_0000_0000_0000_0000;
                let divisor: u128 = m2 as u128;
                let q: u128 = dividend / divisor;
                let sticky: bool = dividend % divisor != 0;
                proof {
                    lemma_quotient_steps(
                        m1 as nat,
                        x1 as nat,
                        m2 as nat,
                        x2 as nat,
                        q as nat,
                        sticky,
                    );
                }
                let magnitude: u32 = round_magnitude(
                    q,
                    x1 + 341 - x2,
                    sticky,
                    Ghost(n),
                    Ghost(d),
                );
                with_sign(negative, magnitude)
            }
        }
    }
}

/// Less than half a unit rounds to zero.
pub(crate) proof fn lemma_rounded_small(n: nat, d: nat)
    requires
        2 * n < d,
    ensures
        rounded(n, d) == 0,
{
    lemma2_to64();
    assert(d * pow2(0) == d) by (nonlinear_arith)
        requires
            pow2(0) == 1,
    ;
    lemma_fundamental_div_mod_converse(n as int, d as int, 0, n as int);
}

proof fn lemma_small_product(m1: u32, m2: u32)
    requires
        m1 < 0x100_0000,
        m2 < 0x100_0000,
    ensures
        m1 * m2 < 0x1_0000_0000_0000,
{
    assert(m1 * m2 < 0x1_0000_0000_0000) by (nonlinear_arith)
        requires
            m1 < 0x100_0000,
            m2 < 0x100_0000,
    ;
}

proof fn lemma_swap(a: int, b: int, c: int)
    ensures
        a * b * c == a * c * b,
{
    assert(a * b * c == a * c * b) by (nonlinear_arith);
}

/// The product of two finite numbers in guard steps.
proof fn lemma_product_steps(neg1: bool, m1: nat, x1: nat, neg2: bool, m2: nat, x2: nat)
    ensures
        ({
            let v1 = if neg1 {
                -((m1 * pow2(x1)) as int)
            } else {
                (m1 * pow2(x1)) as int
            };
            let v2 = if neg2 {
                -((m2 * pow2(x2)) as int)
            } else {
                (m2 * pow2(x2)) as int
            };
            steps(neg1 != neg2, m1 * m2, x1 + x2 + 107, pow2(149)) == v1 * v2 * pow2(GUARD as nat)
        }),
{
    let p = pow2(GUARD as nat);
    let u1 = m1 * pow2(x1);
    let u2 = m2 * pow2(x2);
    lemma_pow2_adds(x1, x2);
    lemma_pow2_adds(x1 + x2, 107);
    lemma_pow2_adds(107, 149);
    let a = pow2(107);
    let b = pow2(149);
    assert((m1 * m2) * (((pow2(x1) * pow2(x2)) * a) * b) == (u1 * u2) * (a * b)) by (nonlinear_arith)
        requires
            u1 == m1 * pow2(x1),
            u2 == m2 * pow2(x2),
    ;
    let s1 = u1 as int;
    let s2 = u2 as int;
    assert((-s1) * s2 * p == -(s1 * s2 * p)) by (nonlinear_arith);
    assert(s1 * (-s2) * p == -(s1 * s2 * p)) by (nonlinear_arith);
    assert((-s1) * (-s2) * p == s1 * s2 * p) by (nonlinear_arith);
}

/// The quotient of two finite magnitudes in guard steps.
proof fn lemma_quotient_steps(m1: nat, x1: nat, m2: nat, x2: nat, q: nat, sticky: bool)
    requires
        0 < m1 < 0x100_0000,
        0 < m2 < 0x100_0000,
        x1 <= 253,
        x2 <= 253,
        q == (m1 * 0x1_0000_0000_0000_0000) / m2,
        sticky <==> (m1 * 0x1_0000_0000_0000_0000) % m2 != 0,
    ensures
        0x200_0000 <= q < 0x8000_0000_0000_0000_0000_0000_0000_0000,
        truncates(
            q,
            (x1 + 341 - x2) as nat,
            sticky,
            (m1 * pow2(x1)) * pow2(149),
            m2 * pow2(x2),
        ),
{
    let dividend = m1 * 0x1_0000_0000_0000_0000;
    let e = (x1 + 341 - x2) as nat;
    let w = pow2((x1 + 341) as nat);
    let p = pow2(GUARD as nat);
    let n = (m1 * pow2(x1)) * pow2(149);
    let d = m2 * pow2(x2);
    lemma2_to64();
    lemma_pow2_adds(e, x2);
    lemma_pow2_adds(149, GUARD as nat);
    lemma_pow2_adds(64, 341);
    lemma_pow2_adds(x1, 341);
    lemma_pow2_pos(x1 + 341);
    let t = 0x1_0000_0000_0000_0000nat;
    assert(pow2(149) * p == t * pow2(341));
    assert(n * p == dividend * w) by (nonlinear_arith)
        requires
            n == (m1 * pow2(x1)) * pow2(149),
            pow2(149) * p == t * pow2(341),
            w == pow2(x1) * pow2(341),
            dividend == m1 * t,
    {
        assert(((m1 * pow2(x1)) * pow2(149)) * p == (m1 * pow2(x1)) * (pow2(149) * p));
        assert((m1 * pow2(x1)) * (t * pow2(341)) == (m1 * t) * (pow2(x1) * pow2(341)));
    }
    assert(pow2(e) * d == m2 * w) by (nonlinear_arith)
        requires
            d == m2 * pow2(x2),
            w == pow2(e) * pow2(x2),
    ;
    lemma_fundamental_div_mod(dividend as int, m2 as int);
    let rem = dividend % m2;
    assert(dividend * w == q * (m2 * w) + rem * w) by (nonlinear_arith)
        requires
            dividend == m2 * q + rem,
    ;
    assert((q + 1) * (m2 * w) == q * (m2 * w) + m2 * w) by (nonlinear_arith);
    assert(rem * w < m2 * w) by (nonlinear_arith)
        requires
            rem < m2,
            w > 0,
    ;
    assert(rem > 0 ==> rem * w > 0) by (nonlinear_arith)
        requires
            w > 0,
    ;
    assert(rem == 0 ==> rem * w == 0) by (nonlinear_arith);
    assert(q >= 0x200_0000) by (nonlinear_arith)
        requires
            m2 * q + rem == dividend,
            rem < m2,
            dividend >= 0x1_0000_0000_0000_0000,
            m2 < 0x100_0000,
    ;
    lemma_quotient_at_most(dividend, m2);
}

proof fn lemma_distributes(a: int, b: int, c: int)
    ensures
        (a + b) * c == a * c + b * c,
{
    assert((a + b) * c == a * c + b * c) by (nonlinear_arith);
}

/// A significand with its exponent moved to guard steps.
proof fn lemma_guard_steps(negative: bool, m: nat, x: nat, d: nat)
    ensures
        steps(negative, m, x + GUARD as nat, d) == (if negative {
            -((m * pow2(x)) as int)
        } else {
            (m * pow2(x)) as int
        }) * pow2(GUARD as nat) * d,
{
    let p = pow2(GUARD as nat);
    lemma_pow2_adds(x, GUARD as nat);
    assert(m * ((pow2(x) * p) * d) == (m * pow2(x)) * p * d) by (nonlinear_arith);
    assert((-((m * pow2(x)) as int)) * p * d == -((m * pow2(x)) * p * d)) by (nonlinear_arith);
}

} // verus!
