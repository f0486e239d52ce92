//! Double-precision numbers, held by their bit patterns, and the order of the numbers that the
//! patterns stand for.

use vstd::arithmetic::power2::pow2;
use vstd::prelude::*;

verus! {

/// The weight of the sign bit.
pub const SIGN: u64 = 0x8000_0000_0000_0000;

/// The bit pattern of positive infinity. A larger magnitude is not a number.
pub const INFINITY: u64 = 0x7ff0_0000_0000_0000;

/// The weight of the lowest exponent bit: two to the power of 52.
pub const STEP: u64 = 0x10_0000_0000_0000;

/// The bit pattern of 0.001.
pub const THOUSANDTH: u64 = 0x3f50_624d_d2f1_a9fc;

/// The bit pattern of 0.1.
pub const TENTH: u64 = 0x3fb9_9999_9999_999a;

/// The bit pattern of 0.5.
pub const HALF: u64 = 0x3fe0_0000_0000_0000;

/// The bit pattern of 1.
pub const ONE: u64 = 0x3ff0_0000_0000_0000;

/// The bit pattern of 1.5.
pub const THREE_HALVES: u64 = 0x3ff8_0000_0000_0000;

/// The bit pattern of 2.
pub const TWO: u64 = 0x4000_0000_0000_0000;

/// The bit pattern of 2.5.
pub const FIVE_HALVES: u64 = 0x4004_0000_0000_0000;

/// The bit pattern of 3.
pub const THREE: u64 = 0x4008_0000_0000_0000;

/// The bit pattern of 9.5.
pub const NINETEEN_HALVES: u64 = 0x4023_0000_0000_0000;

/// The bit pattern of 10.
pub const TEN: u64 = 0x4024_0000_0000_0000;

/// The bit pattern of 30.
pub const THIRTY: u64 = 0x403e_0000_0000_0000;

/// The bit pattern of 60.
pub const SIXTY: u64 = 0x404e_0000_0000_0000;

/// The bit pattern of 100.
pub const HUNDRED: u64 = 0x4059_0000_0000_0000;

/// The bit pattern of 1000.
pub const THOUSAND: u64 = 0x408f_4000_0000_0000;

/// The bit pattern of 1000000.
pub const MILLION: u64 = 0x412e_8480_0000_0000;

/// A double-precision number, held by its bit pattern.
#[derive(Clone, Copy, Debug, PartialEq, Eq, Structural)]
pub struct Real {
    /// The sign bit, eleven exponent bits, and 52 fraction bits, from the top down.
    pub bits: u64,
}

/// What a pattern without its sign stands for, counted in units of the smallest positive number,
/// two to the power of -1074. Infinity counts as one step above the largest finite number.
pub open spec fn magnitude_value(m: nat) -> nat {
    let exponent = m / (STEP as nat);
    let fraction = m % (STEP as nat);
    if exponent == 0 {
        fraction
    } else {
        (STEP as nat + fraction) * pow2((exponent - 1) as nat)
    }
}

/// The number one, counted in units of the smallest positive number.
pub open spec fn unit() -> int {
    pow2(1074) as int
}

impl Real {
    /// Whether the sign bit is set.
    pub open spec fn is_negative(self) -> bool {
        self.bits >= SIGN
    }

    /// The pattern without its sign.
    pub open spec fn magnitude(self) -> nat {
        if self.is_negative() {
            (self.bits - SIGN) as nat
        } else {
            self.bits as nat
        }
    }

    /// Whether the pattern stands for a number, infinities included.
    pub open spec fn is_number(self) -> bool {
        self.magnitude() <= INFINITY
    }

    /// Whether the pattern stands for a finite number.
    pub open spec fn is_finite(self) -> bool {
        self.magnitude() < INFINITY
    }

    /// The number that the pattern stands for, counted in units of the smallest positive number.
    pub open spec fn value(self) -> int {
        if self.is_negative() {
            -(magnitude_value(self.magnitude()) as int)
        } else {
            magnitude_value(self.magnitude()) as int
        }
    }

    /// Both are numbers, and this one is the smaller.
    pub open spec fn below(self, other: Real) -> bool {
        self.is_number() && other.is_number() && self.value() < other.value()
    }

    /// Both are numbers, and this one is not the greater.
    pub open spec fn at_most(self, other: Real) -> bool {
        self.is_number() && other.is_number() && self.value() <= other.value()
    }

    /// An integer that orders numbers as they are ordered.
    spec fn rank(self) -> int {
        if self.is_negative() {
            -(self.magnitude() as int)
        } else {
            self.magnitude() as int
        }
    }

    fn number_rank(self) -> (r: Option<i128>)
        ensures
            r is Some <==> self.is_number(),
            r matches Some(rank) ==> rank == self.rank(),
    {
        let magnitude: u64 = if self.bits >= SIGN {
            self.bits - SIGN
        } else {
            self.bits
        };
        if magnitude > INFINITY {
            None
        } else if self.bits >= SIGN {
            Some(-(magnitude as i128))
        } else {
            Some(magnitude as i128)
        }
    }

    /// Whether both are numbers and this one is the smaller.
    pub fn lt(self, other: Real) -> (r: bool)
        ensures
            r == self.below(other),
    {
        match (self.number_rank(), other.number_rank()) {
            (Some(a), Some(b)) => {
                proof {
                    lemma_rank_orders(self, other);
                }
                a < b
            },
            _ => false,
        }
    }

    /// Whether both are numbers and this one is not the greater.
    pub fn le(self, other: Real) -> (r: bool)
        ensures
            r == self.at_most(other),
    {
        match (self.number_rank(), other.number_rank()) {
            (Some(a), Some(b)) => {
                proof {
                    lemma_rank_orders(self, other);
                    lemma_rank_orders(other, self);
                }
                a <= b
            },
            _ => false,
        }
    }

    /// Whether the pattern stands for a finite number.
    pub fn finite(self) -> (r: bool)
        ensures
            r == self.is_finite(),
    {
        if self.bits >= SIGN {
            self.bits - SIGN < INFINITY
        } else {
            self.bits < INFINITY
        }
    }

    /// Whether the pattern stands for a number.
    pub fn number(self) -> (r: bool)
        ensures
            r == self.is_number(),
    {
        if self.bits >= SIGN {
            self.bits - SIGN <= INFINITY
        } else {
            self.bits <= INFINITY
        }
    }

    /// The number limited to the range from zero to `high`. A bound is returned only where the
    /// number lies outside the range.
    pub open spec fn limited(self, high: Real) -> Real {
        if self.below(Real { bits: 0 }) {
            Real { bits: 0 }
        } else if high.below(self) {
            high
        } else {
            self
        }
    }

    /// Limits the number to the range from zero to `high`.
    pub fn limit(self, high: Real) -> (r: Real)
        requires
            (Real { bits: 0 }).at_most(high),
        ensures
            r == self.limited(high),
            self.is_number() ==> 0 <= r.value() <= high.value(),
    {
        proof {
            lemma_zero();
        }
        let zero = Real { bits: 0 };
        if self.lt(zero) {
            zero
        } else if high.lt(self) {
            high
        } else {
            self
        }
    }

    /// The number limited to the range from `low` to `high`.
    pub open spec fn clamped(self, low: Real, high: Real) -> Real {
        if self.below(low) {
            low
        } else if high.below(self) {
            high
        } else {
            self
        }
    }

    /// Limits the number to the range from `low` to `high`.
    pub fn clamp(self, low: Real, high: Real) -> (r: Real)
        requires
            low.at_most(high),
        ensures
            r == self.clamped(low, high),
            self.is_number() ==> low.value() <= r.value() <= high.value(),
    {
        if self.lt(low) {
            low
        } else if high.lt(self) {
            high
        } else {
            self
        }
    }

    /// The smaller of two numbers; the other one, where one of them is not a number.
    pub open spec fn smaller(self, other: Real) -> Real {
        if other.below(self) || !self.is_number() {
            other
        } else {
            self
        }
    }

    /// The smaller of two numbers; the other one, where one of them is not a number.
    pub fn min(self, other: Real) -> (r: Real)
        ensures
            r == self.smaller(other),
    {
        if other.lt(self) || !self.number() {
            other
        } else {
            self
        }
    }

    /// The number, but not less than zero; zero, where it is not a number.
    pub open spec fn not_negative(self) -> Real {
        if (Real { bits: 0 }).below(self) {
            self
        } else {
            Real { bits: 0 }
        }
    }

    /// The number, but not less than zero; zero, where it is not a number.
    pub fn max_zero(self) -> (r: Real)
        ensures
            r == self.not_negative(),
            r.is_number() && r.value() >= 0,
    {
        proof {
            lemma_zero();
        }
        let zero = Real { bits: 0 };
        if zero.lt(self) {
            self
        } else {
            zero
        }
    }

    /// Half of a finite number that is at least one.
    pub fn half(self) -> (r: Real)
        requires
            self.is_finite(),
            self.value() >= unit(),
        ensures
            r.is_finite(),
            self.value() == 2 * r.value(),
            r.bits < self.bits,
            !r.is_negative(),
    {
        proof {
            lemma_one();
            lemma_rank_orders(self, Real { bits: ONE });
            lemma_exponent_step((self.bits - STEP) as nat);
        }
        Real { bits: self.bits - STEP }
    }

    /// Twice a positive number below one.
    pub fn double(self) -> (r: Real)
        requires
            self.is_number(),
            0 < self.value() < unit(),
        ensures
            r.is_finite(),
            r.value() == 2 * self.value(),
            r.bits > self.bits,
            !r.is_negative(),
    {
        proof {
            lemma_one();
            lemma_zero();
            lemma_rank_orders(self, Real { bits: ONE });
            lemma_rank_orders(Real { bits: 0 }, self);
        }
        if self.bits < STEP {
            proof {
                lemma_below_step(self.bits as nat);
            }
            Real { bits: self.bits + self.bits }
        } else {
            proof {
                lemma_exponent_step(self.bits as nat);
            }
            Real { bits: self.bits + STEP }
        }
    }
}

/// What limiting, clamping and choosing do to the numbers that patterns stand for.
pub proof fn law_choices_are_by_value(a: Real, b: Real, low: Real, high: Real)
    requires
        a.is_number(),
        b.is_number(),
        low.is_number(),
        high.is_number(),
        0 <= low.value() <= high.value(),
    ensures
        a.limited(high).value() == (if a.value() < 0 {
            0
        } else if a.value() > high.value() {
            high.value()
        } else {
            a.value()
        }),
        a.clamped(low, high).value() == (if a.value() < low.value() {
            low.value()
        } else if a.value() > high.value() {
            high.value()
        } else {
            a.value()
        }),
        a.smaller(b).value() == (if a.value() <= b.value() {
            a.value()
        } else {
            b.value()
        }),
        a.not_negative().value() == (if a.value() < 0 {
            0
        } else {
            a.value()
        }),
{
    lemma_zero();
}

/// A finite number that is at least one has a half.
pub proof fn lemma_halved(a: Real) -> (r: Real)
    requires
        a.is_finite(),
        a.value() >= unit(),
    ensures
        r.is_finite(),
        a.value() == 2 * r.value(),
        r.bits < a.bits,
        !r.is_negative(),
{
    lemma_one();
    lemma_rank_orders(a, Real { bits: ONE });
    lemma_exponent_step((a.bits - STEP) as nat);
    Real { bits: (a.bits - STEP) as u64 }
}

/// Adding one to the exponent of a number that is not among the smallest doubles it.
proof fn lemma_exponent_step(m: nat)
    requires
        m >= STEP,
    ensures
        magnitude_value(m + STEP as nat) == 2 * magnitude_value(m),
{
    let s = STEP as nat;
    let e = m / s;
    let f = m % s;
    assert((m + s) / s == e + 1 && (m + s) % s == f) by (nonlinear_arith)
        requires
            s == 0x10_0000_0000_0000nat,
            e == m / s,
            f == m % s,
    ;
    assert(e >= 1) by (nonlinear_arith)
        requires
            s == 0x10_0000_0000_0000nat,
            m >= s,
            e == m / s,
    ;
    vstd::arithmetic::power2::lemma_pow2_unfold(e);
    let p = pow2((e - 1) as nat);
    assert((s + f) * (2 * p) == 2 * ((s + f) * p)) by (nonlinear_arith);
}

/// Doubling a pattern among the smallest numbers doubles the number.
proof fn lemma_below_step(m: nat)
    requires
        m < STEP,
    ensures
        magnitude_value(m) == m,
        magnitude_value(2 * m) == 2 * m,
{
    let s = STEP as nat;
    assert(m / s == 0 && m % s == m) by (nonlinear_arith)
        requires
            s == 0x10_0000_0000_0000nat,
            m < s,
    ;
    vstd::arithmetic::power2::lemma2_to64();
    if 2 * m >= s {
        assert((2 * m) / s == 1 && (2 * m) % s == (2 * m - s) as nat) by (nonlinear_arith)
            requires
                s == 0x10_0000_0000_0000nat,
                m < s,
                2 * m >= s,
        ;
        assert((s + (2 * m - s)) * 1 == 2 * m);
    } else {
        assert((2 * m) / s == 0 && (2 * m) % s == 2 * m) by (nonlinear_arith)
            requires
                s == 0x10_0000_0000_0000nat,
                2 * m < s,
        ;
    }
}

/// The next pattern stands for a larger number.
proof fn lemma_next_is_larger(m: nat)
    ensures
        magnitude_value(m) < magnitude_value(m + 1),
{
    let s = STEP as nat;
    let e = m / s;
    let f = m % s;
    if e >= 1 {
        vstd::arithmetic::power2::lemma_pow2_pos((e - 1) as nat);
    }
    vstd::arithmetic::power2::lemma2_to64();
    if f + 1 < s {
        assert((m + 1) / s == e && (m + 1) % s == f + 1) by (nonlinear_arith)
            requires
                s == 0x10_0000_0000_0000nat,
                e == m / s,
                f == m % s,
                f + 1 < s,
        ;
        if e >= 1 {
            let p = pow2((e - 1) as nat);
            assert((s + f + 1) * p == (s + f) * p + p) by (nonlinear_arith);
        }
    } else {
        assert((m + 1) / s == e + 1 && (m + 1) % s == 0) by (nonlinear_arith)
            requires
                s == 0x10_0000_0000_0000nat,
                e == m / s,
                f == m % s,
                f + 1 == s,
        ;
        if e >= 1 {
            vstd::arithmetic::power2::lemma_pow2_unfold(e);
            let p = pow2((e - 1) as nat);
            assert((s + 0) * (2 * p) == (s + f) * p + p) by (nonlinear_arith)
                requires
                    f + 1 == s,
            ;
        } else {
            assert((s + 0) * pow2(0) == s);
        }
    }
}

/// A larger pattern stands for a larger number.
pub proof fn lemma_magnitudes_ordered(a: nat, b: nat)
    requires
        a < b,
    ensures
        magnitude_value(a) < magnitude_value(b),
    decreases b - a,
{
    lemma_next_is_larger((b - 1) as nat);
    if a + 1 < b {
        lemma_magnitudes_ordered(a, (b - 1) as nat);
    }
}

/// Patterns order as the numbers do that they stand for.
proof fn lemma_rank_orders(a: Real, b: Real)
    ensures
        a.value() < b.value() <==> a.rank() < b.rank(),
        a.value() == b.value() <==> a.rank() == b.rank(),
{
    let x = a.magnitude();
    let y = b.magnitude();
    lemma_zero();
    if x < y {
        lemma_magnitudes_ordered(x, y);
    }
    if y < x {
        lemma_magnitudes_ordered(y, x);
    }
    if 0 < x {
        lemma_magnitudes_ordered(0, x);
    }
    if 0 < y {
        lemma_magnitudes_ordered(0, y);
    }
}

/// Two patterns that stand for the same positive number are the same.
pub proof fn lemma_same_value(a: Real, b: Real)
    requires
        a.value() == b.value(),
        a.value() > 0,
    ensures
        a == b,
{
    lemma_rank_orders(a, b);
}

/// The pattern of zero stands for zero.
pub proof fn lemma_zero()
    ensures
        (Real { bits: 0 }).value() == 0,
        (Real { bits: 0 }).is_finite(),
        magnitude_value(0) == 0,
{
}

/// Infinity is above a hundred.
pub proof fn lemma_infinity()
    ensures
        magnitude_value(INFINITY as nat) > 100 * unit(),
        unit() > 0,
{
    lemma_constants();
    lemma_magnitudes_ordered(HUNDRED as nat, INFINITY as nat);
}

proof fn lemma_scaled(m: nat, exponent: nat, fraction: nat, k: nat)
    requires
        m == exponent * STEP as nat + fraction,
        fraction < STEP,
        exponent >= 1,
        exponent - 1 + k == 1074,
        k <= 60,
    ensures
        magnitude_value(m) * pow2(k) == (STEP as nat + fraction) * pow2(1074),
{
    let s = STEP as nat;
    assert(m / s == exponent && m % s == fraction) by (nonlinear_arith)
        requires
            s == 0x10_0000_0000_0000nat,
            m == exponent * s + fraction,
            fraction < s,
    ;
    vstd::arithmetic::power2::lemma_pow2_adds((exponent - 1) as nat, k);
    let p = pow2((exponent - 1) as nat);
    let q = pow2(k);
    assert((s + fraction) * p * q == (s + fraction) * (p * q)) by (nonlinear_arith);
}

/// The pattern of one stands for one.
pub proof fn lemma_one()
    ensures
        (Real { bits: ONE }).value() == unit(),
        (Real { bits: ONE }).is_finite(),
{
    lemma_constants();
}

/// The patterns with a name stand for the numbers that they are named after.
pub proof fn lemma_constants()
    ensures
        2 * (Real { bits: HALF }).value() == unit(),
        (Real { bits: ONE }).value() == unit(),
        2 * (Real { bits: THREE_HALVES }).value() == 3 * unit(),
        (Real { bits: TWO }).value() == 2 * unit(),
        2 * (Real { bits: FIVE_HALVES }).value() == 5 * unit(),
        (Real { bits: THREE }).value() == 3 * unit(),
        2 * (Real { bits: NINETEEN_HALVES }).value() == 19 * unit(),
        (Real { bits: TEN }).value() == 10 * unit(),
        (Real { bits: THIRTY }).value() == 30 * unit(),
        (Real { bits: SIXTY }).value() == 60 * unit(),
        (Real { bits: HUNDRED }).value() == 100 * unit(),
        unit() > 0,
{
    vstd::arithmetic::power2::lemma2_to64();
    vstd::arithmetic::power2::lemma2_to64_rest();
    vstd::arithmetic::power2::lemma_pow2_pos(1074);
    let u = pow2(1074);
    lemma_scaled(HALF as nat, 1022, 0x0, 53);
    let v = magnitude_value(HALF as nat);
    assert(2 * v == 1 * u) by (nonlinear_arith)
        requires
            v * 0x20000000000000nat == 0x10000000000000nat * u,
    ;
    lemma_scaled(ONE as nat, 1023, 0x0, 52);
    let v = magnitude_value(ONE as nat);
    assert(2 * v == 2 * u) by (nonlinear_arith)
        requires
            v * 0x10000000000000nat == 0x10000000000000nat * u,
    ;
    lemma_scaled(THREE_HALVES as nat, 1023, 0x8000000000000, 52);
    let v = magnitude_value(THREE_HALVES as nat);
    assert(2 * v == 3 * u) by (nonlinear_arith)
        requires
            v * 0x10000000000000nat == 0x18000000000000nat * u,
    ;
    lemma_scaled(TWO as nat, 1024, 0x0, 51);
    let v = magnitude_value(TWO as nat);
    assert(2 * v == 4 * u) by (nonlinear_arith)
        requires
            v * 0x8000000000000nat == 0x10000000000000nat * u,
    ;
    lemma_scaled(FIVE_HALVES as nat, 1024, 0x4000000000000, 51);
    let v = magnitude_value(FIVE_HALVES as nat);
    assert(2 * v == 5 * u) by (nonlinear_arith)
        requires
            v * 0x8000000000000nat == 0x14000000000000nat * u,
    ;
    lemma_scaled(THREE as nat, 1024, 0x8000000000000, 51);
    let v = magnitude_value(THREE as nat);
    assert(2 * v == 6 * u) by (nonlinear_arith)
        requires
            v * 0x8000000000000nat == 0x18000000000000nat * u,
    ;
    lemma_scaled(NINETEEN_HALVES as nat, 1026, 0x3000000000000, 49);
    let v = magnitude_value(NINETEEN_HALVES as nat);
    assert(2 * v == 19 * u) by (nonlinear_arith)
        requires
            v * 0x2000000000000nat == 0x13000000000000nat * u,
    ;
    lemma_scaled(TEN as nat, 1026, 0x4000000000000, 49);
    let v = magnitude_value(TEN as nat);
    assert(2 * v == 20 * u) by (nonlinear_arith)
        requires
            v * 0x2000000000000nat == 0x14000000000000nat * u,
    ;
    lemma_scaled(THIRTY as nat, 1027, 0xe000000000000, 48);
    let v = magnitude_value(THIRTY as nat);
    assert(2 * v == 60 * u) by (nonlinear_arith)
        requires
            v * 0x1000000000000nat == 0x1e000000000000nat * u,
    ;
    lemma_scaled(SIXTY as nat, 1028, 0xe000000000000, 47);
    let v = magnitude_value(SIXTY as nat);
    assert(2 * v == 120 * u) by (nonlinear_arith)
        requires
            v * 0x800000000000nat == 0x1e000000000000nat * u,
    ;
    lemma_scaled(HUNDRED as nat, 1029, 0x9000000000000, 46);
    let v = magnitude_value(HUNDRED as nat);
    assert(2 * v == 200 * u) by (nonlinear_arith)
        requires
            v * 0x400000000000nat == 0x19000000000000nat * u,
    ;
}

} // verus!
