//! Sums, products and quotients of double-precision numbers: each is the double nearest to the
//! exact result.

use crate::double::{
    lemma_magnitudes_ordered, lemma_zero, magnitude_value, unit, Real, INFINITY, SIGN, STEP,
};
use crate::rounding::{
    grain, is_grain, lemma_grain, lemma_nearest_scaled, nearest, round_at, rounded, EXACT,
};
use vstd::arithmetic::power2::{
    lemma_pow2_adds, lemma_pow2_pos, lemma_pow2_strictly_increases, lemma_pow2_unfold, pow2,
};
use vstd::prelude::*;

verus! {

/// The pattern that stands for the result of an operation that has none.
pub const NAN: u64 = 0x7ff8_0000_0000_0000;

/// A pattern with a sign.
pub open spec fn with_sign(bits: u64, negative: bool) -> Real {
    if negative {
        Real { bits: (bits + SIGN) as u64 }
    } else {
        Real { bits }
    }
}

/// The sum of two numbers. Infinities of different signs have none.
pub open spec fn sum(a: Real, b: Real) -> Real {
    if !a.is_number() || !b.is_number() {
        Real { bits: NAN }
    } else if !a.is_finite() {
        if !b.is_finite() && a.is_negative() != b.is_negative() {
            Real { bits: NAN }
        } else {
            a
        }
    } else if !b.is_finite() {
        b
    } else {
        let v = a.value() + b.value();
        if v > 0 {
            Real { bits: rounded(v as nat, 1) }
        } else if v < 0 {
            with_sign(rounded((-v) as nat, 1), true)
        } else {
            with_sign(0, a.is_negative() && b.is_negative())
        }
    }
}

/// The number with the other sign.
pub open spec fn negated(a: Real) -> Real {
    if a.is_negative() {
        Real { bits: (a.bits - SIGN) as u64 }
    } else {
        Real { bits: (a.bits + SIGN) as u64 }
    }
}

/// The difference of two numbers.
pub open spec fn difference(a: Real, b: Real) -> Real {
    sum(a, negated(b))
}

/// The product of two numbers. Infinity and zero have none.
pub open spec fn product(a: Real, b: Real) -> Real {
    let negative = a.is_negative() != b.is_negative();
    if !a.is_number() || !b.is_number() {
        Real { bits: NAN }
    } else if !a.is_finite() || !b.is_finite() {
        if a.magnitude() == 0 || b.magnitude() == 0 {
            Real { bits: NAN }
        } else {
            with_sign(INFINITY, negative)
        }
    } else {
        with_sign(
            rounded(
                magnitude_value(a.magnitude()) * magnitude_value(b.magnitude()),
                unit() as nat,
            ),
            negative,
        )
    }
}

/// The quotient of two numbers. Two zeros, or two infinities, have none.
pub open spec fn quotient(a: Real, b: Real) -> Real {
    let negative = a.is_negative() != b.is_negative();
    if !a.is_number() || !b.is_number() {
        Real { bits: NAN }
    } else if !a.is_finite() {
        if !b.is_finite() {
            Real { bits: NAN }
        } else {
            with_sign(INFINITY, negative)
        }
    } else if !b.is_finite() {
        with_sign(0, negative)
    } else if b.magnitude() == 0 {
        if a.magnitude() == 0 {
            Real { bits: NAN }
        } else {
            with_sign(INFINITY, negative)
        }
    } else {
        with_sign(
            rounded(
                magnitude_value(a.magnitude()) * unit() as nat,
                magnitude_value(b.magnitude()),
            ),
            negative,
        )
    }
}

/// A whole number as a double.
pub open spec fn whole(n: nat) -> Real {
    Real { bits: rounded(n * unit() as nat, 1) }
}

/// The number without its sign.
pub open spec fn absolute(a: Real) -> Real {
    Real { bits: a.magnitude() as u64 }
}

/// The number without its fraction, as far as it can be held; zero, where it is negative or not a
/// number.
pub open spec fn floor_u32(a: Real) -> u32 {
    let f = a.value() / unit();
    if !a.is_number() || a.is_negative() {
        0
    } else if f > u32::MAX {
        u32::MAX
    } else {
        f as u32
    }
}

/// The whole number nearest to the number, as far as it can be held; of two that are equally near,
/// the larger one; zero, where it is negative or not a number.
pub open spec fn round_u64(a: Real) -> u64 {
    let f = (2 * a.value() + unit()) / (2 * unit());
    if !a.is_number() || a.is_negative() {
        0
    } else if f > u64::MAX {
        u64::MAX
    } else {
        f as u64
    }
}

// ---------------------------------------------------------------------------------------------
// Digits and exponent
// ---------------------------------------------------------------------------------------------

/// The binary digits of a number, as a whole number.
pub open spec fn mantissa(m: nat) -> nat {
    if m / (STEP as nat) == 0 {
        m % (STEP as nat)
    } else {
        STEP as nat + m % (STEP as nat)
    }
}

/// The power of two that the binary digits are multiplied by.
pub open spec fn exponent(m: nat) -> nat {
    if m / (STEP as nat) == 0 {
        0
    } else {
        (m / (STEP as nat) - 1) as nat
    }
}

/// A number is its binary digits times a power of two.
pub proof fn lemma_parts(m: nat)
    ensures
        magnitude_value(m) == mantissa(m) * pow2(exponent(m)),
        m == exponent(m) * STEP + mantissa(m),
        mantissa(m) < EXACT,
        exponent(m) > 0 ==> mantissa(m) >= STEP,
        m > 0 ==> mantissa(m) > 0,
        m <= INFINITY ==> exponent(m) <= 2046,
{
    let s = STEP as nat;
    let e = m / s;
    let f = m % s;
    assert(m == e * s + f && f < s) by (nonlinear_arith)
        requires
            s == 0x10_0000_0000_0000nat,
            e == m / s,
            f == m % s,
    ;
    vstd::arithmetic::power2::lemma2_to64();
    if e == 0 {
        assert(f * 1 == f);
    } else {
        assert((e - 1) * s + (s + f) == e * s + f) by (nonlinear_arith);
    }
}

pub(crate) fn parts(m: u64) -> (r: (u64, u32))
    requires
        m <= INFINITY,
    ensures
        r.0 == mantissa(m as nat),
        r.1 == exponent(m as nat),
        r.1 <= 2046,
        r.0 < EXACT,
{
    proof {
        lemma_parts(m as nat);
    }
    let e: u64 = m / STEP;
    let f: u64 = m % STEP;
    if e == 0 {
        (f, 0)
    } else {
        (STEP + f, (e - 1) as u32)
    }
}

// ---------------------------------------------------------------------------------------------
// Rounding with a common factor
// ---------------------------------------------------------------------------------------------

proof fn lemma_pow2_exceeds(n: nat)
    ensures
        pow2(n) > n,
    decreases n,
{
    vstd::arithmetic::power2::lemma2_to64();
    if n > 0 {
        lemma_pow2_exceeds((n - 1) as nat);
        lemma_pow2_unfold(n);
    }
}

proof fn lemma_grain_below(n: nat, d: nat, k: nat)
    requires
        d > 0,
        n < EXACT as nat * (pow2(k) * d),
    ensures
        is_grain(n, d, grain(n, d)),
    decreases k,
{
    if k == 0 {
        assert(is_grain(n, d, 0));
    } else if 2 * n >= EXACT as nat * (pow2(k) * d) {
        assert(is_grain(n, d, k));
    } else {
        lemma_pow2_unfold(k);
        let p = pow2((k - 1) as nat);
        assert(EXACT as nat * ((2 * p) * d) == 2 * (EXACT as nat * (p * d))) by (nonlinear_arith);
        lemma_grain_below(n, d, (k - 1) as nat);
    }
}

/// Every fraction has a grain.
pub proof fn lemma_has_grain(n: nat, d: nat)
    requires
        d > 0,
    ensures
        is_grain(n, d, grain(n, d)),
{
    lemma_pow2_exceeds(n);
    let p = pow2(n);
    assert(n < 0x20_0000_0000_0000nat * (p * d)) by (nonlinear_arith)
        requires
            p > n,
            d > 0,
    ;
    lemma_grain_below(n, d, n);
}

/// A factor of both numbers does not matter.
pub proof fn lemma_rounded_scaled(n: nat, d: nat, c: nat)
    requires
        d > 0,
        c > 0,
    ensures
        rounded(n * c, d * c) == rounded(n, d),
{
    lemma_has_grain(n, d);
    let k = grain(n, d);
    let p = pow2(k);
    lemma_pow2_pos(k);
    assert(p * (d * c) == (p * d) * c) by (nonlinear_arith);
    assert(p * d > 0) by (nonlinear_arith)
        requires
            p > 0,
            d > 0,
    ;
    assert(d * c > 0) by (nonlinear_arith)
        requires
            c > 0,
            d > 0,
    ;
    let w = p * d;
    assert(n * c < 0x20_0000_0000_0000nat * (w * c)) by (nonlinear_arith)
        requires
            n < 0x20_0000_0000_0000nat * w,
            c > 0,
    ;
    if k > 0 {
        assert(2 * (n * c) >= 0x20_0000_0000_0000nat * (w * c)) by (nonlinear_arith)
            requires
                2 * n >= 0x20_0000_0000_0000nat * w,
        ;
    }
    lemma_grain(n * c, d * c, k);
    lemma_nearest_scaled(n, w, c);
}

// ---------------------------------------------------------------------------------------------
// What rounding does to a number
// ---------------------------------------------------------------------------------------------

/// What the pattern with these digits and this exponent stands for.
pub proof fn lemma_pattern_value(k: nat, q: nat)
    requires
        q <= EXACT,
        k == 0 || q >= STEP,
    ensures
        magnitude_value(k * STEP as nat + q) == q * pow2(k),
{
    let s = STEP as nat;
    let m = k * s + q;
    vstd::arithmetic::power2::lemma2_to64();
    if q == EXACT {
        assert(m == (k + 2) * s + 0) by (nonlinear_arith)
            requires
                m == k * s + q,
                q == 2 * s,
        ;
        vstd::arithmetic::div_mod::lemma_fundamental_div_mod_converse(
            m as int,
            s as int,
            (k + 2) as int,
            0,
        );
        lemma_pow2_unfold(k + 1);
        let p = pow2(k);
        assert((s + 0) * (2 * p) == (2 * s) * p) by (nonlinear_arith);
    } else if q >= s {
        assert(m == (k + 1) * s + (q - s)) by (nonlinear_arith)
            requires
                m == k * s + q,
        ;
        vstd::arithmetic::div_mod::lemma_fundamental_div_mod_converse(
            m as int,
            s as int,
            (k + 1) as int,
            q - s,
        );
    } else {
        assert(m == q);
        assert(m / s == 0 && m % s == q) by (nonlinear_arith)
            requires
                m == q,
                q < s,
        ;
        assert(q * 1 == q);
    }
}

/// A rounded quotient lies within half of the divisor, and on the right side of whole numbers.
pub proof fn lemma_nearest_bounds(n: nat, d: nat, j: nat)
    requires
        d > 0,
    ensures
        n <= j * d ==> nearest(n, d) <= j,
        n >= j * d ==> nearest(n, d) >= j,
        2 * (nearest(n, d) * d) <= 2 * n + d,
        2 * n <= 2 * (nearest(n, d) * d) + d,
{
    let q = n / d;
    let r = n % d;
    assert(n == q * d + r && 0 <= r < d) by (nonlinear_arith)
        requires
            q == n / d,
            r == n % d,
            d > 0,
    ;
    assert((q + 1) * d == q * d + d) by (nonlinear_arith);
    if n <= j * d && q >= j {
        assert(r == 0 && q == j) by (nonlinear_arith)
            requires
                n == q * d + r,
                n <= j * d,
                q >= j,
                0 <= r < d,
        ;
    }
    if n >= j * d {
        assert(q >= j) by (nonlinear_arith)
            requires
                n == q * d + r,
                n >= j * d,
                0 <= r < d,
        ;
    }
}

/// What a rounded fraction stands for, unless it is beyond the largest double.
pub proof fn lemma_rounded_value(n: nat, d: nat)
    requires
        d > 0,
        rounded(n, d) < INFINITY,
    ensures
        is_grain(n, d, grain(n, d)),
        magnitude_value(rounded(n, d) as nat) == nearest(n, pow2(grain(n, d)) * d) * pow2(
            grain(n, d),
        ),
{
    lemma_has_grain(n, d);
    let k = grain(n, d);
    let p = pow2(k);
    lemma_pow2_pos(k);
    let w = p * d;
    assert(w > 0) by (nonlinear_arith)
        requires
            w == p * d,
            p > 0,
            d > 0,
    ;
    lemma_nearest_bounds(n, w, EXACT as nat);
    lemma_nearest_bounds(n, w, STEP as nat);
    lemma_pattern_value(k, nearest(n, w));
}

/// A number that is a double is not changed by rounding.
pub proof fn law_doubles_are_not_rounded(n: nat, d: nat, b: nat)
    requires
        d > 0,
        b < INFINITY,
        n == magnitude_value(b) * d,
    ensures
        rounded(n, d) == b,
{
    lemma_parts(b);
    let m = mantissa(b);
    let e = exponent(b);
    let p = pow2(e);
    lemma_pow2_pos(e);
    let w = p * d;
    assert(w > 0 && n == m * w) by (nonlinear_arith)
        requires
            w == p * d,
            p > 0,
            d > 0,
            n == (m * p) * d,
    ;
    assert(n < 0x20_0000_0000_0000 * w) by (nonlinear_arith)
        requires
            n == m * w,
            m < 0x20_0000_0000_0000,
            w > 0,
    ;
    if e > 0 {
        assert(2 * n >= 0x20_0000_0000_0000 * w) by (nonlinear_arith)
            requires
                n == m * w,
                m >= 0x10_0000_0000_0000,
                w > 0,
        ;
    }
    lemma_grain(n, d, e);
    lemma_nearest_bounds(n, w, m);
}

/// No double is nearer to a fraction than the one that it is rounded to, unless it is beyond the
/// largest double.
pub proof fn law_rounding_is_nearest(n: nat, d: nat, b: nat)
    requires
        d > 0,
        rounded(n, d) < INFINITY,
        b < INFINITY,
    ensures
        ({
            let chosen = magnitude_value(rounded(n, d) as nat) * d - n;
            let other = magnitude_value(b) * d - n;
            (if chosen < 0 {
                -chosen
            } else {
                chosen
            }) <= (if other < 0 {
                -other
            } else {
                other
            })
        }),
{
    lemma_rounded_value(n, d);
    lemma_parts(b);
    let k = grain(n, d);
    let p = pow2(k);
    lemma_pow2_pos(k);
    let w = p * d;
    assert(w > 0) by (nonlinear_arith)
        requires
            w == p * d,
            p > 0,
            d > 0,
    ;
    let q = nearest(n, w);
    lemma_nearest_bounds(n, w, STEP as nat);
    assert(magnitude_value(rounded(n, d) as nat) * d == q * w) by (nonlinear_arith)
        requires
            magnitude_value(rounded(n, d) as nat) == q * p,
            w == p * d,
    ;
    let m = mantissa(b);
    let e = exponent(b);
    let x = magnitude_value(b) * d;
    if e >= k {
        lemma_pow2_adds(k, (e - k) as nat);
        let c = pow2((e - k) as nat);
        let j = m * c;
        assert(x == j * w) by (nonlinear_arith)
            requires
                x == (m * (p * c)) * d,
                w == p * d,
                j == m * c,
        ;
        assert(j > q ==> j * w >= q * w + w) by (nonlinear_arith)
            requires
                w > 0,
        ;
        assert(j < q ==> q * w >= j * w + w) by (nonlinear_arith)
            requires
                w > 0,
        ;
    } else {
        lemma_pow2_adds(e, (k - e) as nat);
        lemma_pow2_unfold((k - e) as nat);
        lemma_pow2_pos((k - e - 1) as nat);
        lemma_pow2_pos(e);
        let a = pow2(e);
        let c = pow2((k - e) as nat);
        assert(x < 0x10_0000_0000_0000 * w) by (nonlinear_arith)
            requires
                x == (m * a) * d,
                w == (a * c) * d,
                m < 0x20_0000_0000_0000,
                c >= 2,
                a > 0,
                d > 0,
        ;
        assert(q > STEP ==> q * w >= 0x10_0000_0000_0000 * w + w) by (nonlinear_arith)
            requires
                w > 0,
        ;
    }
}

/// Of two fractions, the smaller one is not rounded to the larger double.
pub proof fn lemma_rounding_keeps_order(n: nat, m: nat, d: nat)
    requires
        d > 0,
        n <= m,
        rounded(n, d) < INFINITY,
    ensures
        rounded(n, d) <= rounded(m, d),
{
    let x = rounded(n, d) as nat;
    let y = rounded(m, d) as nat;
    if x > y {
        law_rounding_is_nearest(n, d, y);
        law_rounding_is_nearest(m, d, x);
        lemma_magnitudes_ordered(y, x);
        let v = magnitude_value(x);
        let w = magnitude_value(y);
        assert(v * d > w * d) by (nonlinear_arith)
            requires
                v > w,
                d > 0,
        ;
        assert(n == m);
    }
}

/// Rounding a fraction of at least one raises it by less than a millionth.
pub proof fn lemma_rounding_is_small(n: nat, d: nat)
    requires
        d > 0,
        n >= unit() * d,
        rounded(n, d) < INFINITY,
    ensures
        1_000_000 * (magnitude_value(rounded(n, d) as nat) * d) <= 1_000_001 * n,
{
    lemma_rounded_value(n, d);
    let k = grain(n, d);
    let p = pow2(k);
    lemma_pow2_pos(k);
    let w = p * d;
    assert(w > 0) by (nonlinear_arith)
        requires
            w == p * d,
            p > 0,
            d > 0,
    ;
    let q = nearest(n, w);
    lemma_nearest_bounds(n, w, 0);
    let v = magnitude_value(rounded(n, d) as nat);
    assert(v * d == q * w) by (nonlinear_arith)
        requires
            v == q * p,
            w == p * d,
    ;
    if k == 0 {
        let u = unit();
        vstd::arithmetic::power2::lemma2_to64();
        vstd::arithmetic::power2::lemma2_to64_rest();
        lemma_pow2_strictly_increases(64, 1074);
        assert(n >= 0x1_0000_0000_0000_0000 * d) by (nonlinear_arith)
            requires
                n >= u * d,
                u >= 0x1_0000_0000_0000_0000,
        ;
        assert(1 * d == d);
        assert(false);
    }
}

/// A fraction that is not above a double is not rounded to above it.
pub proof fn lemma_rounded_at_most(n: nat, d: nat, b: nat)
    requires
        d > 0,
        b <= INFINITY,
        n <= magnitude_value(b) * d,
    ensures
        rounded(n, d) <= b,
{
    lemma_has_grain(n, d);
    lemma_parts(b);
    let k = grain(n, d);
    let p = pow2(k);
    lemma_pow2_pos(k);
    let w = p * d;
    assert(w > 0) by (nonlinear_arith)
        requires
            w == p * d,
            p > 0,
            d > 0,
    ;
    let m = mantissa(b);
    let e = exponent(b);
    let s = STEP as nat;
    lemma_nearest_bounds(n, w, EXACT as nat);
    if e == k {
        assert(m * p * d == m * w) by (nonlinear_arith)
            requires
                w == p * d,
        ;
        lemma_nearest_bounds(n, w, m);
    } else if e > k {
        assert(k * s + 2 * s <= e * s + s) by (nonlinear_arith)
            requires
                e >= k + 1,
        ;
    } else {
        lemma_pow2_adds(e, (k - e) as nat);
        lemma_pow2_unfold((k - e) as nat);
        lemma_pow2_pos((k - e - 1) as nat);
        lemma_pow2_pos(e);
        let a = pow2(e);
        let c = pow2((k - e) as nat);
        assert(2 * ((m * a) * d) < 0x20_0000_0000_0000 * ((a * c) * d)) by (nonlinear_arith)
            requires
                m < 0x20_0000_0000_0000,
                c >= 2,
                a > 0,
                d > 0,
        ;
        assert(false);
    }
}

/// A fraction that is not below a double is not rounded to below it.
pub proof fn lemma_rounded_at_least(n: nat, d: nat, b: nat)
    requires
        d > 0,
        b <= INFINITY,
        n >= magnitude_value(b) * d,
    ensures
        rounded(n, d) >= b,
{
    lemma_has_grain(n, d);
    lemma_parts(b);
    let k = grain(n, d);
    let p = pow2(k);
    lemma_pow2_pos(k);
    let w = p * d;
    assert(w > 0) by (nonlinear_arith)
        requires
            w == p * d,
            p > 0,
            d > 0,
    ;
    let m = mantissa(b);
    let e = exponent(b);
    let s = STEP as nat;
    lemma_nearest_bounds(n, w, STEP as nat);
    if e == k {
        assert(m * p * d == m * w) by (nonlinear_arith)
            requires
                w == p * d,
        ;
        lemma_nearest_bounds(n, w, m);
    } else if e < k {
        assert(k * s + s >= e * s + 2 * s) by (nonlinear_arith)
            requires
                k >= e + 1,
        ;
    } else {
        lemma_pow2_adds(k, (e - k) as nat);
        lemma_pow2_unfold((e - k) as nat);
        lemma_pow2_pos((e - k - 1) as nat);
        let c = pow2((e - k) as nat);
        assert((m * (p * c)) * d >= 0x20_0000_0000_0000 * (p * d)) by (nonlinear_arith)
            requires
                m >= 0x10_0000_0000_0000,
                c >= 2,
                p > 0,
                d > 0,
        ;
        assert(false);
    }
}

/// Whole numbers of at most 53 binary digits are doubles.
pub proof fn lemma_whole_exact(n: nat)
    requires
        n < EXACT,
    ensures
        whole(n).is_finite(),
        !whole(n).is_negative(),
        whole(n).value() == n * unit(),
{
    let u = pow2(1074);
    lemma_pow2_pos(1074);
    let all = n * u;
    lemma_has_grain(all, 1);
    let k = grain(all, 1);
    let p = pow2(k);
    lemma_pow2_pos(k);
    assert(p * 1 == p);
    if k > 1074 {
        lemma_pow2_adds(1074, (k - 1074) as nat);
        lemma_pow2_unfold((k - 1074) as nat);
        lemma_pow2_pos((k - 1075) as nat);
        let c = pow2((k - 1074) as nat);
        assert(2 * (n * u) < 0x20_0000_0000_0000 * (u * c)) by (nonlinear_arith)
            requires
                n < 0x20_0000_0000_0000,
                c >= 2,
                u > 0,
        ;
        assert(false);
    }
    let c = pow2((1074 - k) as nat);
    lemma_pow2_adds((1074 - k) as nat, k);
    let q = n * c;
    assert(n * (c * p) == q * p) by (nonlinear_arith)
        requires
            q == n * c,
    ;
    lemma_nearest_bounds(all, p, q);
    assert(nearest(all, p) == q);
    lemma_nearest_bounds(all, p, EXACT as nat);
    let s = STEP as nat;
    assert(k * s + q <= 1074 * s + 2 * s) by (nonlinear_arith)
        requires
            k <= 1074,
            q <= 2 * s,
    ;
    lemma_rounded_value(all, 1);
}

/// A number that is not above another one does not exceed its whole part either.
pub proof fn lemma_floor_at_most(a: Real, n: nat)
    requires
        n <= u32::MAX,
        a.is_number(),
        a.value() <= n * unit(),
    ensures
        floor_u32(a) <= n,
{
    let u = unit();
    lemma_pow2_pos(1074);
    if !a.is_negative() {
        let v = a.value();
        assert(v / u <= n) by (nonlinear_arith)
            requires
                v <= n * u,
                u > 0,
        ;
    }
}

/// A whole number times a factor of at most one, without its fraction, is not above the number.
pub proof fn lemma_scaled_at_most(n: u32, factor: Real)
    requires
        factor.is_number() ==> factor.value() <= unit(),
    ensures
        floor_u32(product(whole(n as nat), factor)) <= n,
{
    let u = unit() as nat;
    lemma_pow2_pos(1074);
    lemma_whole_exact(n as nat);
    let a = whole(n as nat);
    let x = a.magnitude();
    let y = factor.magnitude();
    let r = product(a, factor);
    if factor.is_finite() && !factor.is_negative() {
        let f = magnitude_value(y);
        let v = magnitude_value(x);
        assert(v * f <= v * u) by (nonlinear_arith)
            requires
                f <= u,
        ;
        lemma_rounded_at_most(v * f, u, x);
        let bits = rounded(v * f, u);
        if bits < x {
            lemma_magnitudes_ordered(bits as nat, x);
        }
        lemma_floor_at_most(r, n as nat);
    } else if factor.is_number() && !factor.is_negative() {
        crate::double::lemma_infinity();
    }
}

// ---------------------------------------------------------------------------------------------
// What the operations are for
// ---------------------------------------------------------------------------------------------

/// The pattern of two to the power of 1000.
pub const LARGE: u64 = 0x7e70_0000_0000_0000;

/// How far two numbers are apart.
pub open spec fn apart(a: int, b: int) -> int {
    if a < b {
        b - a
    } else {
        a - b
    }
}

/// The pattern stands for what it is named after.
pub proof fn lemma_large()
    ensures
        magnitude_value(LARGE as nat) == pow2(1000) * unit(),
        pow2(1000) > 0,
        unit() > 0,
{
    lemma_pow2_pos(1000);
    lemma_pow2_pos(1074);
    lemma_parts(LARGE as nat);
    vstd::arithmetic::power2::lemma2_to64();
    vstd::arithmetic::power2::lemma2_to64_rest();
    lemma_pow2_adds(52, 2022);
    lemma_pow2_adds(1000, 1074);
}

/// One is a large number of the smallest positive number.
pub proof fn lemma_unit_is_large()
    ensures
        unit() >= 0x1_0000_0000_0000_0000_0000_0000_0000_0000_0000_0000,
        pow2(1000) >= 0x1_0000_0000_0000_0000_0000_0000_0000_0000_0000_0000,
{
    vstd::arithmetic::power2::lemma2_to64();
    vstd::arithmetic::power2::lemma2_to64_rest();
    lemma_pow2_adds(64, 32);
    lemma_pow2_adds(96, 64);
    lemma_pow2_strictly_increases(160, 1000);
    lemma_pow2_strictly_increases(1000, 1074);
}

/// The difference of two numbers that are not negative and not above a third, to one part in two to
/// the power of 53.
pub proof fn lemma_difference_error(a: Real, b: Real, high: Real)
    requires
        a.is_finite(),
        b.is_finite(),
        high.is_finite(),
        0 <= a.value() <= high.value(),
        0 <= b.value() <= high.value(),
    ensures
        difference(a, b).is_finite(),
        0x20_0000_0000_0000 * apart(difference(a, b).value(), a.value() - b.value()) <= apart(
            a.value() - b.value(),
            0,
        ),
{
    lemma_zero();
    let v = a.value() - b.value();
    let n = apart(v, 0) as nat;
    assert(negated(b).value() == -b.value());
    if n > 0 {
        lemma_rounded_at_most(n, 1, high.magnitude());
        lemma_short_error(n);
    }
}

/// The sum of two numbers that are not negative, to one part in two to the power of 53.
pub proof fn lemma_sum_error(a: Real, b: Real)
    requires
        a.is_finite(),
        b.is_finite(),
        !a.is_negative(),
        !b.is_negative(),
        a.value() + b.value() <= pow2(1000) * unit(),
    ensures
        sum(a, b).is_finite(),
        !sum(a, b).is_negative(),
        0x20_0000_0000_0000 * apart(sum(a, b).value(), a.value() + b.value()) <= a.value()
            + b.value(),
{
    lemma_zero();
    let n = (a.value() + b.value()) as nat;
    assert(pow2(1000) * unit() * 1 == pow2(1000) * unit());
    if n > 0 {
        lemma_rounding_error(n, 1);
        let v = magnitude_value(rounded(n, 1) as nat);
        assert(v * 1 == v);
    }
}

/// Rounding a sum changes it by at most one part in two to the power of 53, unless it is beyond the
/// largest double.
pub proof fn lemma_short_error(n: nat)
    requires
        rounded(n, 1) < INFINITY,
    ensures
        ({
            let v = magnitude_value(rounded(n, 1) as nat);
            &&& 0x20_0000_0000_0000 * v <= 0x20_0000_0000_0001 * n
            &&& 0x1f_ffff_ffff_ffff * n <= 0x20_0000_0000_0000 * v
        }),
{
    lemma_rounded_value(n, 1);
    let k = grain(n, 1);
    let p = pow2(k);
    lemma_pow2_pos(k);
    vstd::arithmetic::power2::lemma2_to64();
    assert(p * 1 == p);
    lemma_nearest_bounds(n, p, n);
    if k == 0 {
        assert(n * p == n) by (nonlinear_arith)
            requires
                p == 1,
        ;
    }
}

/// Rounding a fraction changes it by at most one part in two to the power of 53, where it is not
/// beyond the range of the doubles with all of their digits.
pub proof fn lemma_rounding_error(n: nat, d: nat)
    requires
        d > 0,
        n <= pow2(1000) * unit() * d,
        n == 0 || d == 1 || n >= 0x10_0000_0000_0000 * d,
    ensures
        rounded(n, d) < INFINITY,
        ({
            let v = magnitude_value(rounded(n, d) as nat);
            &&& 0x20_0000_0000_0000 * (v * d) <= 0x20_0000_0000_0001 * n
            &&& 0x1f_ffff_ffff_ffff * n <= 0x20_0000_0000_0000 * (v * d)
        }),
        n == 0 ==> rounded(n, d) == 0,
{
    lemma_large();
    lemma_rounded_at_most(n, d, LARGE as nat);
    lemma_rounded_value(n, d);
    let k = grain(n, d);
    let p = pow2(k);
    lemma_pow2_pos(k);
    vstd::arithmetic::power2::lemma2_to64();
    let w = p * d;
    assert(w > 0) by (nonlinear_arith)
        requires
            w == p * d,
            p > 0,
            d > 0,
    ;
    let q = nearest(n, w);
    lemma_nearest_bounds(n, w, 0);
    let v = magnitude_value(rounded(n, d) as nat);
    assert(v * d == q * w) by (nonlinear_arith)
        requires
            v == q * p,
            w == p * d,
    ;
    if n == 0 {
        lemma_zero();
        lemma_rounded_at_most(n, d, 0);
        assert(v * d == 0) by (nonlinear_arith)
            requires
                v == 0,
        ;
    } else if k == 0 {
        assert(p == 1);
        assert(w == d) by (nonlinear_arith)
            requires
                w == p * d,
                p == 1,
        ;
        if d == 1 {
            assert(n * w == n && q * w == q) by (nonlinear_arith)
                requires
                    w == 1,
            ;
            lemma_nearest_bounds(n, w, n);
        }
    }
}

proof fn lemma_nearest_of_either_sign(n: nat, d: nat, r: Real, c: Real)
    requires
        d > 0,
        r.bits == rounded(n, d),
        r.is_finite(),
        c.is_finite(),
    ensures
        apart(r.value() * d, n as int) <= apart(c.value() * d, n as int),
{
    lemma_zero();
    law_rounding_is_nearest(n, d, c.magnitude());
    law_rounding_is_nearest(n, d, 0);
    let x = magnitude_value(c.magnitude());
    assert(0 * d == 0);
    assert((-(x as int)) * d == -(x * d)) by (nonlinear_arith);
    assert(x * d >= 0) by (nonlinear_arith);
}

proof fn lemma_negative_distance(a: int, b: int, n: int, d: int)
    ensures
        apart((-a) * d, -n) == apart(a * d, n),
{
    assert((-a) * d == -(a * d)) by (nonlinear_arith);
}

proof fn lemma_signed_is_nearest(n: nat, d: nat, negative: bool, c: Real)
    requires
        d > 0,
        rounded(n, d) < INFINITY,
        c.is_finite(),
    ensures
        ({
            let exact = if negative {
                -(n as int)
            } else {
                n as int
            };
            apart(with_sign(rounded(n, d), negative).value() * d, exact) <= apart(
                c.value() * d,
                exact,
            )
        }),
{
    let r = Real { bits: rounded(n, d) };
    if negative {
        let o = negated(c);
        assert(o.value() == -c.value());
        lemma_nearest_of_either_sign(n, d, r, o);
        lemma_negative_distance(r.value(), 0, n as int, d as int);
        lemma_negative_distance(o.value(), 0, n as int, d as int);
        assert(with_sign(r.bits, true).value() == -r.value());
    } else {
        lemma_nearest_of_either_sign(n, d, r, c);
    }
}

/// No double is nearer to the sum of two numbers than the one that stands for it, unless it is beyond
/// the largest double; and it is not, where the sum is at most two to the power of 1000.
pub proof fn law_sum_is_nearest(a: Real, b: Real, c: Real)
    requires
        a.is_finite(),
        b.is_finite(),
        c.is_finite(),
    ensures
        sum(a, b).is_finite() ==> apart(sum(a, b).value(), a.value() + b.value()) <= apart(
            c.value(),
            a.value() + b.value(),
        ),
        apart(a.value() + b.value(), 0) <= pow2(1000) * unit() ==> sum(a, b).is_finite(),
{
    lemma_zero();
    lemma_large();
    let v = a.value() + b.value();
    let n = apart(v, 0) as nat;
    if n <= pow2(1000) * unit() {
        assert(pow2(1000) * unit() * 1 == pow2(1000) * unit());
        lemma_rounding_error(n, 1);
    }
    if v != 0 && rounded(n, 1) < INFINITY {
        lemma_signed_is_nearest(n, 1, v < 0, c);
        let r = sum(a, b);
        assert(r.value() * 1 == r.value() && c.value() * 1 == c.value());
    }
}

/// The difference of two numbers is the sum of the first and of the other with the other sign.
pub proof fn law_difference_is_nearest(a: Real, b: Real, c: Real)
    requires
        a.is_finite(),
        b.is_finite(),
        c.is_finite(),
    ensures
        difference(a, b).is_finite() ==> apart(difference(a, b).value(), a.value() - b.value())
            <= apart(c.value(), a.value() - b.value()),
        apart(a.value() - b.value(), 0) <= pow2(1000) * unit() ==> difference(a, b).is_finite(),
{
    assert(negated(b).value() == -b.value());
    law_sum_is_nearest(a, negated(b), c);
}

proof fn lemma_value_signs(a: Real, b: Real)
    ensures
        ({
            let x = magnitude_value(a.magnitude()) as int;
            let y = magnitude_value(b.magnitude()) as int;
            &&& a.is_negative() != b.is_negative() ==> a.value() * b.value() == -(x * y)
            &&& a.is_negative() == b.is_negative() ==> a.value() * b.value() == x * y
            &&& x * y >= 0
        }),
{
    let x = magnitude_value(a.magnitude()) as int;
    let y = magnitude_value(b.magnitude()) as int;
    assert((-x) * y == -(x * y) && x * (-y) == -(x * y) && (-x) * (-y) == x * y)
        by (nonlinear_arith);
    assert(x * y >= 0) by (nonlinear_arith)
        requires
            x >= 0,
            y >= 0,
    ;
}

/// No double is nearer to the product of two numbers than the one that stands for it, unless it is
/// beyond the largest double.
pub proof fn law_product_is_nearest(a: Real, b: Real, c: Real)
    requires
        a.is_finite(),
        b.is_finite(),
        c.is_finite(),
        product(a, b).is_finite(),
    ensures
        apart(product(a, b).value() * unit(), a.value() * b.value()) <= apart(
            c.value() * unit(),
            a.value() * b.value(),
        ),
{
    lemma_large();
    lemma_value_signs(a, b);
    let n = magnitude_value(a.magnitude()) * magnitude_value(b.magnitude());
    lemma_signed_is_nearest(n, unit() as nat, a.is_negative() != b.is_negative(), c);
}

/// No double is nearer to the quotient of two numbers than the one that stands for it, unless it is
/// beyond the largest double: as a product with the divisor, no other is nearer to the dividend.
pub proof fn law_quotient_is_nearest(a: Real, b: Real, c: Real)
    requires
        a.is_finite(),
        b.is_finite(),
        b.value() != 0,
        c.is_finite(),
        quotient(a, b).is_finite(),
    ensures
        apart(quotient(a, b).value() * b.value(), a.value() * unit()) <= apart(
            c.value() * b.value(),
            a.value() * unit(),
        ),
{
    lemma_large();
    lemma_zero();
    let x = magnitude_value(a.magnitude()) as int;
    let y = magnitude_value(b.magnitude()) as int;
    let u = unit();
    let n = magnitude_value(a.magnitude()) * u as nat;
    let negative = a.is_negative() != b.is_negative();
    lemma_signed_is_nearest(n, y as nat, negative, c);
    let q = quotient(a, b);
    assert((-x) * u == -(x * u)) by (nonlinear_arith);
    if b.is_negative() {
        assert(q.value() * (-y) == -(q.value() * y) && c.value() * (-y) == -(c.value() * y))
            by (nonlinear_arith);
    }
}

/// Without its fraction, a number that is not negative and fits is the largest whole number that is not
/// above it; a negative one is zero, and one that does not fit is the largest that does.
pub proof fn law_fraction_is_dropped(a: Real)
    requires
        a.is_number(),
    ensures
        ({
            let f = floor_u32(a);
            &&& a.value() <= 0 ==> f == 0
            &&& a.value() >= 0 ==> f * unit() <= a.value()
            &&& a.value() >= 0 && f < u32::MAX ==> a.value() < (f + 1) * unit()
        }),
{
    lemma_large();
    let u = unit();
    let v = a.value();
    let f = v / u;
    assert(f * u <= v < f * u + u) by (nonlinear_arith)
        requires
            f == v / u,
            u > 0,
    ;
    assert((f + 1) * u == f * u + u) by (nonlinear_arith);
    assert(v == 0 ==> f == 0) by (nonlinear_arith)
        requires
            f == v / u,
            u > 0,
    ;
    if v >= 0 && f > u32::MAX {
        assert(u32::MAX * u <= f * u) by (nonlinear_arith)
            requires
                u32::MAX <= f,
                u > 0,
        ;
    }
    if v >= 0 {
        lemma_zero();
        assert(0 * u == 0);
    }
}

/// The whole number nearest to a number that is not negative and fits differs from it by at most a half.
pub proof fn law_whole_number_is_nearest(a: Real)
    requires
        a.is_number(),
        a.value() >= 0,
        !a.is_negative(),
    ensures
        round_u64(a) < u64::MAX ==> 2 * apart(round_u64(a) * unit(), a.value()) <= unit(),
{
    lemma_large();
    let u = unit();
    let v = a.value();
    let f = (2 * v + u) / (2 * u);
    assert(2 * (f * u) <= 2 * v + u && 2 * v + u < 2 * (f * u) + 2 * u && f >= 0)
        by (nonlinear_arith)
        requires
            f == (2 * v + u) / (2 * u),
            u > 0,
            v >= 0,
    ;
}

/// Turning the sign, and dropping it.
pub proof fn law_signs(a: Real)
    ensures
        negated(a).value() == -a.value(),
        negated(negated(a)) == a,
        absolute(a).value() == apart(a.value(), 0),
{
}

/// An inequality times a number that is not negative.
pub proof fn lemma_times(a: int, x: int, b: int, y: int, s: int)
    requires
        a * x <= b * y,
        s >= 0,
    ensures
        a * (x * s) <= b * (y * s),
{
    assert(a * (x * s) <= b * (y * s)) by (nonlinear_arith)
        requires
            a * x <= b * y,
            s >= 0,
    ;
}

/// A whole number stands for itself, to one part in two to the power of 53.
pub proof fn lemma_whole_error(n: nat)
    requires
        n <= u64::MAX,
    ensures
        whole(n).is_finite(),
        !whole(n).is_negative(),
        0x20_0000_0000_0000 * whole(n).value() <= 0x20_0000_0000_0001 * (n * unit()),
        0x1f_ffff_ffff_ffff * (n * unit()) <= 0x20_0000_0000_0000 * whole(n).value(),
{
    lemma_large();
    lemma_zero();
    vstd::arithmetic::power2::lemma2_to64();
    vstd::arithmetic::power2::lemma2_to64_rest();
    lemma_pow2_strictly_increases(64, 1000);
    let u = unit() as nat;
    let l = pow2(1000);
    assert(n * u <= l * u * 1) by (nonlinear_arith)
        requires
            n <= l,
    ;
    lemma_rounding_error(n * u, 1);
    let v = magnitude_value(rounded(n * u, 1) as nat);
    assert(v * 1 == v);
}

/// A product of numbers that are not negative, to one part in two to the power of 53.
pub proof fn lemma_product_error(a: Real, b: Real)
    requires
        a.is_finite(),
        b.is_finite(),
        !a.is_negative(),
        !b.is_negative(),
        a.value() * b.value() <= pow2(1000) * unit() * unit(),
        a.value() * b.value() == 0 || a.value() * b.value() >= 0x10_0000_0000_0000 * unit(),
    ensures
        product(a, b).is_finite(),
        !product(a, b).is_negative(),
        0x20_0000_0000_0000 * (product(a, b).value() * unit()) <= 0x20_0000_0000_0001 * (
        a.value() * b.value()),
        0x1f_ffff_ffff_ffff * (a.value() * b.value()) <= 0x20_0000_0000_0000 * (product(
            a,
            b,
        ).value() * unit()),
{
    lemma_large();
    lemma_rounding_error(
        magnitude_value(a.magnitude()) * magnitude_value(b.magnitude()),
        unit() as nat,
    );
}

/// A quotient of numbers that are not negative, to one part in two to the power of 53.
pub proof fn lemma_quotient_error(a: Real, b: Real)
    requires
        a.is_finite(),
        b.is_finite(),
        !a.is_negative(),
        !b.is_negative(),
        b.value() > 0,
        a.value() <= pow2(1000) * b.value(),
        a.value() == 0 || a.value() * unit() >= 0x10_0000_0000_0000 * b.value(),
    ensures
        quotient(a, b).is_finite(),
        !quotient(a, b).is_negative(),
        0x20_0000_0000_0000 * (quotient(a, b).value() * b.value()) <= 0x20_0000_0000_0001 * (
        a.value() * unit()),
        0x1f_ffff_ffff_ffff * (a.value() * unit()) <= 0x20_0000_0000_0000 * (quotient(
            a,
            b,
        ).value() * b.value()),
{
    lemma_large();
    lemma_zero();
    let x = magnitude_value(a.magnitude());
    let y = magnitude_value(b.magnitude());
    let u = unit() as nat;
    let l = pow2(1000);
    assert(x * u <= l * u * y) by (nonlinear_arith)
        requires
            x <= l * y,
    ;
    assert(0 * u == 0);
    lemma_rounding_error(x * u, y);
}

/// The quotient of two whole numbers, to four parts in a hundred millions.
pub proof fn lemma_ratio_near(t: nat, size: nat)
    requires
        t <= u64::MAX,
        0 < size <= u64::MAX,
    ensures
        ({
            let q = quotient(whole(t), whole(size));
            &&& q.is_finite()
            &&& !q.is_negative()
            &&& 100_000_000 * (q.value() * size) <= 100_000_004 * (t * unit())
            &&& 99_999_996 * (t * unit()) <= 100_000_000 * (q.value() * size)
            &&& q.value() <= 0x2_0000_0000_0000_0000 * unit()
            &&& t > 0 ==> q.value() >= 0x100_0000_0000_0000
        }),
{
    lemma_whole_error(t);
    lemma_whole_error(size);
    lemma_large();
    lemma_zero();
    lemma_unit_is_large();
    let u = unit();
    let l = pow2(1000) as int;
    let tv = whole(t).value();
    let sv = whole(size).value();
    let y = t * u;
    let z = size * u;
    assert(z >= u && z <= 0xffff_ffff_ffff_ffff * u) by (nonlinear_arith)
        requires
            z == size * u,
            1 <= size <= 0xffff_ffff_ffff_ffff,
            u > 0,
    ;
    assert(y <= 0xffff_ffff_ffff_ffff * u && y >= 0) by (nonlinear_arith)
        requires
            y == t * u,
            0 <= t <= 0xffff_ffff_ffff_ffff,
            u > 0,
    ;
    assert(tv <= l * sv) by (nonlinear_arith)
        requires
            tv <= 0x2_0000_0000_0000_0000 * u,
            2 * sv >= u,
            l >= 0x8_0000_0000_0000_0000,
            u > 0,
    ;
    if t > 0 {
        assert(y >= u) by (nonlinear_arith)
            requires
                y == t * u,
                t >= 1,
                u > 0,
        ;
        assert(tv * u >= 0x10_0000_0000_0000 * sv) by (nonlinear_arith)
            requires
                2 * tv >= u,
                sv <= 0x2_0000_0000_0000_0000 * u,
                u >= 0x1_0000_0000_0000_0000_0000_0000_0000_0000_0000_0000,
        ;
    } else {
        assert(y == 0) by (nonlinear_arith)
            requires
                y == t * u,
                t == 0,
        ;
    }
    lemma_quotient_error(whole(t), whole(size));
    let q = quotient(whole(t), whole(size)).value();
    let x = q * size;
    assert(q * z == x * u) by (nonlinear_arith)
        requires
            z == size * u,
            x == q * size,
    ;
    assert(0x1f_ffff_ffff_ffff * (q * z) <= 0x20_0000_0000_0000 * (q * sv) && 0x20_0000_0000_0000
        * (q * sv) <= 0x20_0000_0000_0001 * (q * z)) by (nonlinear_arith)
        requires
            0x1f_ffff_ffff_ffff * z <= 0x20_0000_0000_0000 * sv,
            0x20_0000_0000_0000 * sv <= 0x20_0000_0000_0001 * z,
            q >= 0,
    ;
    assert(0x1f_ffff_ffff_ffff * (y * u) <= 0x20_0000_0000_0000 * (tv * u) && 0x20_0000_0000_0000
        * (tv * u) <= 0x20_0000_0000_0001 * (y * u)) by (nonlinear_arith)
        requires
            0x1f_ffff_ffff_ffff * y <= 0x20_0000_0000_0000 * tv,
            0x20_0000_0000_0000 * tv <= 0x20_0000_0000_0001 * y,
            u > 0,
    ;
    assert(100_000_000 * (x * u) <= 100_000_004 * (y * u));
    assert(99_999_996 * (y * u) <= 100_000_000 * (x * u));
    assert(100_000_000 * x <= 100_000_004 * y && 99_999_996 * y <= 100_000_000 * x)
        by (nonlinear_arith)
        requires
            100_000_000 * (x * u) <= 100_000_004 * (y * u),
            99_999_996 * (y * u) <= 100_000_000 * (x * u),
            u > 0,
    ;
    assert(q <= x) by (nonlinear_arith)
        requires
            x == q * size,
            size >= 1,
            q >= 0,
    ;
    if t > 0 {
        assert(q >= 0x100_0000_0000_0000) by (nonlinear_arith)
            requires
                99_999_996 * u <= 100_000_000 * x,
                x == q * size,
                0 < size <= 0xffff_ffff_ffff_ffff,
                u >= 0x1_0000_0000_0000_0000_0000_0000_0000_0000_0000_0000,
        ;
    }
}

// ---------------------------------------------------------------------------------------------
// Operations
// ---------------------------------------------------------------------------------------------

fn signed(bits: u64, negative: bool) -> (r: Real)
    requires
        bits <= INFINITY,
    ensures
        r == with_sign(bits, negative),
{
    if negative {
        Real { bits: bits + SIGN }
    } else {
        Real { bits }
    }
}

pub(crate) fn magnitude_of(a: Real) -> (m: u64)
    ensures
        m == a.magnitude(),
{
    if a.bits >= SIGN {
        a.bits - SIGN
    } else {
        a.bits
    }
}

fn multiply_magnitudes(x: u64, y: u64) -> (r: u64)
    requires
        x < INFINITY,
        y < INFINITY,
    ensures
        r == rounded(magnitude_value(x as nat) * magnitude_value(y as nat), unit() as nat),
        r <= INFINITY,
{
    let (ma, ea) = parts(x);
    let (mb, eb) = parts(y);
    assert(ma * mb < 0x20_0000_0000_0000 * 0x20_0000_0000_0000) by (nonlinear_arith)
        requires
            ma < 0x20_0000_0000_0000,
            mb < 0x20_0000_0000_0000,
    ;
    let n: u128 = ma as u128 * mb as u128;
    let s: i32 = ea as i32 + eb as i32 - 1074;
    proof {
        lemma_parts(x as nat);
        lemma_parts(y as nat);
        let pa = pow2(ea as nat);
        let pb = pow2(eb as nat);
        let e = pow2((ea + eb) as nat);
        lemma_pow2_adds(ea as nat, eb as nat);
        lemma_pow2_pos((ea + eb) as nat);
        lemma_pow2_pos(1074);
        let both = magnitude_value(x as nat) * magnitude_value(y as nat);
        assert((ma * pa) * (mb * pb) == (ma * mb) * (pa * pb)) by (nonlinear_arith);
        assert(both == n * e);
        if s >= 0 {
            lemma_pow2_adds(s as nat, 1074);
            let p = pow2(s as nat);
            let u = pow2(1074);
            assert(n * (p * u) == (n * p) * u) by (nonlinear_arith);
            assert(1 * u == u);
            lemma_rounded_scaled((n * p) as nat, 1, u);
        } else {
            lemma_pow2_adds((-s) as nat, (ea + eb) as nat);
            lemma_pow2_pos((-s) as nat);
            let p = pow2((-s) as nat);
            assert(p * 1 == p);
            lemma_rounded_scaled(n as nat, p, e);
        }
    }
    round_at(n, 1, s)
}

fn divide_magnitudes(x: u64, y: u64) -> (r: u64)
    requires
        x < INFINITY,
        0 < y < INFINITY,
    ensures
        r == rounded(magnitude_value(x as nat) * unit() as nat, magnitude_value(y as nat)),
        r <= INFINITY,
{
    let (ma, ea) = parts(x);
    let (mb, eb) = parts(y);
    let s: i32 = ea as i32 - eb as i32 + 1074;
    proof {
        lemma_parts(x as nat);
        lemma_parts(y as nat);
        let pa = pow2(ea as nat);
        let pb = pow2(eb as nat);
        let u = pow2(1074);
        let e = pow2((ea + 1074) as nat);
        lemma_pow2_adds(ea as nat, 1074);
        lemma_pow2_pos((ea + 1074) as nat);
        lemma_pow2_pos(eb as nat);
        assert((ma * pa) * u == ma * (pa * u)) by (nonlinear_arith);
        if s >= 0 {
            lemma_pow2_adds(s as nat, eb as nat);
            let p = pow2(s as nat);
            assert(ma * (p * pb) == (ma * p) * pb) by (nonlinear_arith);
            lemma_rounded_scaled((ma * p) as nat, mb as nat, pb);
        } else {
            lemma_pow2_adds((-s) as nat, (ea + 1074) as nat);
            lemma_pow2_pos((-s) as nat);
            let p = pow2((-s) as nat);
            assert(mb * (p * e) == (p * mb) * e) by (nonlinear_arith);
            assert(p * mb > 0) by (nonlinear_arith)
                requires
                    p > 0,
                    mb > 0,
            ;
            lemma_rounded_scaled(ma as nat, (p * mb) as nat, e);
        }
    }
    round_at(ma as u128, mb as u128, s)
}

/// Beside a number that is much larger, a number does not matter.
proof fn lemma_far(x: nat, y: nat)
    requires
        x < INFINITY,
        exponent(x) >= exponent(y) + 65,
    ensures
        magnitude_value(x) > magnitude_value(y),
        rounded(magnitude_value(x) + magnitude_value(y), 1) == x,
        rounded((magnitude_value(x) - magnitude_value(y)) as nat, 1) == x,
{
    lemma_parts(x);
    lemma_parts(y);
    let e = exponent(x);
    let m = mantissa(x);
    let p = pow2(e);
    let v = magnitude_value(x);
    let w = magnitude_value(y);
    lemma_pow2_pos(e);
    assert(4096 * w < p) by {
        let f = exponent(y);
        let my = mantissa(y);
        let b = pow2(f);
        let c = pow2((e - f) as nat);
        lemma_pow2_pos(f);
        lemma_pow2_adds(f, (e - f) as nat);
        vstd::arithmetic::power2::lemma2_to64();
        vstd::arithmetic::power2::lemma2_to64_rest();
        lemma_pow2_adds(64, 1);
        if e - f > 65 {
            lemma_pow2_strictly_increases(65, (e - f) as nat);
        }
        assert(4096 * (my * b) < b * c) by (nonlinear_arith)
            requires
                my < 0x20_0000_0000_0000,
                b > 0,
                c >= 0x2_0000_0000_0000_0000,
        ;
    }
    assert(w < v) by (nonlinear_arith)
        requires
            4096 * w < p,
            v == m * p,
            m >= 1,
    ;
    lemma_beside(m, p, w, e, v + w);
    if w == 0 {
        lemma_beside(m, p, 0, e, v);
    } else if m > STEP {
        let n = (v - w) as nat;
        assert(n == (m - 1) * p + (p - w) && n < 0x20_0000_0000_0000 * p && 2 * n
            >= 0x20_0000_0000_0000 * p) by (nonlinear_arith)
            requires
                n == m * p - w,
                0 < w,
                4096 * w < p,
                0x10_0000_0000_0000 < m < 0x20_0000_0000_0000,
        ;
        assert(p * 1 == p);
        lemma_grain(n, 1, e);
        vstd::arithmetic::div_mod::lemma_fundamental_div_mod_converse(
            n as int,
            p as int,
            m - 1,
            p - w,
        );
    } else {
        let n = (v - w) as nat;
        let h = pow2((e - 1) as nat);
        lemma_pow2_unfold(e);
        assert(n == (0x20_0000_0000_0000 - 1) * h + (h - w) && n < 0x20_0000_0000_0000 * h && 2 * n
            >= 0x20_0000_0000_0000 * h) by (nonlinear_arith)
            requires
                n == 0x10_0000_0000_0000 * p - w,
                p == 2 * h,
                0 < w,
                4096 * w < p,
        ;
        assert(h * 1 == h);
        lemma_grain(n, 1, (e - 1) as nat);
        vstd::arithmetic::div_mod::lemma_fundamental_div_mod_converse(
            n as int,
            h as int,
            0x20_0000_0000_0000 - 1,
            h - w,
        );
        assert((e - 1) * STEP + EXACT == e * STEP + STEP) by (nonlinear_arith);
    }
}

proof fn lemma_beside(m: nat, p: nat, w: nat, e: nat, n: nat)
    requires
        p == pow2(e),
        p > 0,
        STEP <= m < EXACT,
        4096 * w < p,
        n == m * p + w,
        e * STEP + m < INFINITY,
    ensures
        rounded(n, 1) == e * STEP + m,
{
    assert(n < 0x20_0000_0000_0000 * p && 2 * n >= 0x20_0000_0000_0000 * p) by (nonlinear_arith)
        requires
            n == m * p + w,
            4096 * w < p,
            0x10_0000_0000_0000 <= m < 0x20_0000_0000_0000,
    ;
    assert(p * 1 == p);
    lemma_grain(n, 1, e);
    vstd::arithmetic::div_mod::lemma_fundamental_div_mod_converse(
        n as int,
        p as int,
        m as int,
        w as int,
    );
}

pub(crate) fn shifted(m: u64, d: u32) -> (r: u128)
    requires
        m < EXACT,
        d <= 64,
    ensures
        r == m * pow2(d as nat),
        r < 0x20_0000_0000_0000_0000_0000_0000_0000,
{
    let mut r: u128 = m as u128;
    let mut i: u32 = 0;
    proof {
        vstd::arithmetic::power2::lemma2_to64();
        vstd::arithmetic::power2::lemma2_to64_rest();
    }
    while i < d
        invariant
            i <= d <= 64,
            m < EXACT,
            r == m * pow2(i as nat),
            pow2(64) == 0x1_0000_0000_0000_0000,
        decreases d - i,
    {
        proof {
            lemma_pow2_unfold((i + 1) as nat);
            let p = pow2(i as nat);
            assert(m * (2 * p) == 2 * (m * p)) by (nonlinear_arith);
            lemma_pow2_strictly_increases(i as nat, 64);
            assert(m * p < 0x20_0000_0000_0000 * 0x1_0000_0000_0000_0000) by (nonlinear_arith)
                requires
                    m < 0x20_0000_0000_0000,
                    0 <= p < 0x1_0000_0000_0000_0000,
            ;
        }
        r = 2 * r;
        i += 1;
    }
    proof {
        if d < 64 {
            lemma_pow2_strictly_increases(d as nat, 64);
        }
        let p = pow2(d as nat);
        assert(m * p < 0x20_0000_0000_0000 * 0x1_0000_0000_0000_0000) by (nonlinear_arith)
            requires
                m < 0x20_0000_0000_0000,
                0 < p <= 0x1_0000_0000_0000_0000,
        ;
    }
    r
}

proof fn lemma_exponents_ordered(x: nat, y: nat)
    requires
        x >= y,
    ensures
        exponent(x) >= exponent(y),
        magnitude_value(x) >= magnitude_value(y),
{
    let s = STEP as nat;
    assert(x / s >= y / s) by (nonlinear_arith)
        requires
            x >= y,
            s == 0x10_0000_0000_0000nat,
    ;
    if x > y {
        lemma_magnitudes_ordered(y, x);
    }
}

/// The sum, or the difference, of two numbers without signs, of which the first is not the smaller.
fn combine_magnitudes(x: u64, y: u64, opposed: bool) -> (r: u64)
    requires
        y <= x < INFINITY,
    ensures
        magnitude_value(x as nat) >= magnitude_value(y as nat),
        !opposed ==> r == rounded(magnitude_value(x as nat) + magnitude_value(y as nat), 1),
        opposed ==> r == rounded(
            (magnitude_value(x as nat) - magnitude_value(y as nat)) as nat,
            1,
        ),
        r <= INFINITY,
{
    let (ma, ea) = parts(x);
    let (mb, eb) = parts(y);
    proof {
        lemma_parts(x as nat);
        lemma_parts(y as nat);
        lemma_exponents_ordered(x as nat, y as nat);
    }
    let d: u32 = ea - eb;
    if d > 64 {
        proof {
            lemma_far(x as nat, y as nat);
        }
        return x;
    }
    let a = shifted(ma, d);
    proof {
        lemma_pow2_adds(d as nat, eb as nat);
        lemma_pow2_pos(eb as nat);
        let p = pow2(d as nat);
        let q = pow2(eb as nat);
        assert(ma * (p * q) == (ma * p) * q) by (nonlinear_arith);
        assert(a * q == magnitude_value(x as nat));
        assert(a >= mb) by (nonlinear_arith)
            requires
                a * q >= mb * q,
                q > 0,
        ;
        assert((a + mb) * q == a * q + mb * q && (a - mb) * q == a * q - mb * q)
            by (nonlinear_arith);
    }
    let n: u128 = if opposed {
        a - mb as u128
    } else {
        a + mb as u128
    };
    round_at(n, 1, eb as i32)
}

proof fn lemma_quotient_scaled(n: nat, d: nat, c: nat)
    requires
        d > 0,
        c > 0,
    ensures
        (n * c) / (d * c) == n / d,
{
    let q = n / d;
    let r = n % d;
    assert(n == q * d + r && 0 <= r < d) by (nonlinear_arith)
        requires
            q == n / d,
            r == n % d,
            d > 0,
    ;
    assert(n * c == q * (d * c) + r * c && 0 <= r * c < d * c) by (nonlinear_arith)
        requires
            n == q * d + r,
            0 <= r < d,
            c > 0,
    ;
    vstd::arithmetic::div_mod::lemma_fundamental_div_mod_converse(
        (n * c) as int,
        (d * c) as int,
        q as int,
        (r * c) as int,
    );
}

/// A number without its sign in whole numbers: without its fraction, or to the nearest one; some
/// number above the largest that fits 64 bits, where it is above that.
fn whole_part(m: u64, nearest_one: bool) -> (r: u128)
    requires
        m <= INFINITY,
    ensures
        ({
            let f = if nearest_one {
                (2 * magnitude_value(m as nat) + unit() as nat) / (2 * unit() as nat)
            } else {
                magnitude_value(m as nat) / unit() as nat
            };
            r == f || (r > u64::MAX && f > u64::MAX)
        }),
{
    let (ma, e) = parts(m);
    let ghost v = magnitude_value(m as nat);
    let ghost u = pow2(1074);
    proof {
        lemma_parts(m as nat);
        lemma_pow2_pos(1074);
        lemma_pow2_pos(e as nat);
        vstd::arithmetic::power2::lemma2_to64();
        vstd::arithmetic::power2::lemma2_to64_rest();
    }
    if e >= 1074 {
        let d: u32 = e - 1074;
        let ghost k = (ma * pow2(d as nat)) as nat;
        proof {
            lemma_pow2_adds(d as nat, 1074);
            let p = pow2(d as nat);
            assert(ma * (p * u) == (ma * p) * u) by (nonlinear_arith);
            assert(1 * u == u);
            lemma_quotient_scaled(k, 1, u);
            lemma_quotient_scaled(2 * k + 1, 2, u);
            assert(2 * (k * u) + u == (2 * k + 1) * u) by (nonlinear_arith);
        }
        if d > 64 {
            proof {
                lemma_pow2_strictly_increases(64, d as nat);
                let p = pow2(d as nat);
                assert(ma * p >= p) by (nonlinear_arith)
                    requires
                        ma >= 1,
                ;
            }
            return u64::MAX as u128 + 1;
        }
        return shifted(ma, d);
    }
    let t: u32 = 1074 - e;
    let ghost p = pow2(t as nat);
    let ghost x = pow2(e as nat);
    proof {
        lemma_pow2_adds(t as nat, e as nat);
        lemma_pow2_pos(t as nat);
        lemma_quotient_scaled(ma as nat, p, x);
        lemma_quotient_scaled(2 * ma as nat + p, 2 * p, x);
        assert(2 * (ma * x) + p * x == (2 * ma + p) * x) by (nonlinear_arith);
        assert(2 * (p * x) == (2 * p) * x) by (nonlinear_arith);
        if t > 54 {
            lemma_pow2_strictly_increases(54, t as nat);
        }
    }
    if t > 54 {
        proof {
            assert(ma as nat / p == 0) by (nonlinear_arith)
                requires
                    ma < p,
            ;
            assert((2 * ma as nat + p) / (2 * p) == 0) by (nonlinear_arith)
                requires
                    2 * ma < p,
            ;
        }
        return 0;
    }
    let y = shifted(1, t);
    assert(1 * p == p);
    if nearest_one {
        (2 * ma as u128 + y) / (2 * y)
    } else {
        ma as u128 / y
    }
}

impl Real {
    /// The number without its fraction, as far as it can be held; zero, where it is negative or
    /// not a number.
    pub fn floor(self) -> (r: u32)
        ensures
            r == floor_u32(self),
    {
        let m = magnitude_of(self);
        if m > INFINITY || self.bits >= SIGN {
            return 0;
        }
        let f = whole_part(m, false);
        if f > u32::MAX as u128 {
            u32::MAX
        } else {
            f as u32
        }
    }

    /// The whole number nearest to the number, as far as it can be held; of two that are equally
    /// near, the larger one; zero, where it is negative or not a number.
    pub fn round(self) -> (r: u64)
        ensures
            r == round_u64(self),
    {
        let m = magnitude_of(self);
        if m > INFINITY || self.bits >= SIGN {
            return 0;
        }
        let f = whole_part(m, true);
        if f > u64::MAX as u128 {
            u64::MAX
        } else {
            f as u64
        }
    }

    /// The sum of two numbers.
    pub fn plus(self, other: Real) -> (r: Real)
        ensures
            r == sum(self, other),
    {
        let x = magnitude_of(self);
        let y = magnitude_of(other);
        let a_negative = self.bits >= SIGN;
        let b_negative = other.bits >= SIGN;
        if x > INFINITY || y > INFINITY {
            return Real { bits: NAN };
        }
        if x == INFINITY {
            return if y == INFINITY && a_negative != b_negative {
                Real { bits: NAN }
            } else {
                self
            };
        }
        if y == INFINITY {
            return other;
        }
        let opposed = a_negative != b_negative;
        proof {
            lemma_zero();
            crate::rounding::lemma_rounded_zero(0, 1, 0);
            vstd::arithmetic::power2::lemma2_to64();
            if x > y {
                lemma_magnitudes_ordered(y as nat, x as nat);
            } else if y > x {
                lemma_magnitudes_ordered(x as nat, y as nat);
            }
            if x > 0 {
                lemma_magnitudes_ordered(0, x as nat);
            }
            if y > 0 {
                lemma_magnitudes_ordered(0, y as nat);
            }
        }
        if opposed && x == y {
            Real { bits: 0 }
        } else if x >= y {
            signed(combine_magnitudes(x, y, opposed), a_negative)
        } else {
            signed(combine_magnitudes(y, x, opposed), b_negative)
        }
    }

    /// The difference of two numbers.
    pub fn minus(self, other: Real) -> (r: Real)
        ensures
            r == difference(self, other),
    {
        self.plus(other.opposite())
    }

    /// The product of two numbers.
    pub fn times(self, other: Real) -> (r: Real)
        ensures
            r == product(self, other),
    {
        let negative = (self.bits >= SIGN) != (other.bits >= SIGN);
        let x = magnitude_of(self);
        let y = magnitude_of(other);
        if x > INFINITY || y > INFINITY {
            Real { bits: NAN }
        } else if x == INFINITY || y == INFINITY {
            if x == 0 || y == 0 {
                Real { bits: NAN }
            } else {
                signed(INFINITY, negative)
            }
        } else {
            signed(multiply_magnitudes(x, y), negative)
        }
    }

    /// The quotient of two numbers.
    pub fn over(self, other: Real) -> (r: Real)
        ensures
            r == quotient(self, other),
    {
        let negative = (self.bits >= SIGN) != (other.bits >= SIGN);
        let x = magnitude_of(self);
        let y = magnitude_of(other);
        if x > INFINITY || y > INFINITY {
            Real { bits: NAN }
        } else if x == INFINITY {
            if y == INFINITY {
                Real { bits: NAN }
            } else {
                signed(INFINITY, negative)
            }
        } else if y == INFINITY {
            signed(0, negative)
        } else if y == 0 {
            if x == 0 {
                Real { bits: NAN }
            } else {
                signed(INFINITY, negative)
            }
        } else {
            signed(divide_magnitudes(x, y), negative)
        }
    }

    /// The number with the other sign.
    pub fn opposite(self) -> (r: Real)
        ensures
            r == negated(self),
    {
        if self.bits >= SIGN {
            Real { bits: self.bits - SIGN }
        } else {
            Real { bits: self.bits + SIGN }
        }
    }

    /// The number without its sign.
    pub fn abs(self) -> (r: Real)
        ensures
            r == absolute(self),
    {
        Real { bits: magnitude_of(self) }
    }

    /// A whole number as a double.
    pub fn from_whole(n: u64) -> (r: Real)
        ensures
            r == whole(n as nat),
    {
        Real { bits: round_at(n as u128, 1, 1074) }
    }
}

} // verus!
