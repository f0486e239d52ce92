//! Double-precision numbers in fixed notation.

use crate::arithmetic::{
    apart, lemma_nearest_bounds, lemma_parts, lemma_whole_exact, magnitude_of, parts, shifted, whole,
};
use crate::double::{magnitude_value, unit, Real, INFINITY, SIGN};
use crate::rounding::{lemma_nearest_scaled, nearest, nearest_to, EXACT};
use crate::text::{
    all_digits, decimal, digit_char, digits_value, is_digit, lemma_decimal_digits, lemma_decimal_value,
    number,
};
use vstd::arithmetic::power2::{
    lemma_pow2_adds, lemma_pow2_pos, lemma_pow2_strictly_increases, lemma_pow2_unfold, pow2,
};
use vstd::prelude::*;

verus! {

/// Ten to a power.
pub open spec fn ten_to(n: nat) -> nat
    decreases n,
{
    if n == 0 {
        1
    } else {
        10 * ten_to((n - 1) as nat)
    }
}

/// The last decimal digits of a number, so many of them.
pub open spec fn padded(n: nat, width: nat) -> Seq<char>
    decreases width,
{
    if width == 0 {
        Seq::empty()
    } else {
        padded(n / 10, (width - 1) as nat).push(digit_char(n % 10))
    }
}

/// A number of the last decimal units with its point.
pub open spec fn pointed(units: nat, decimals: nat) -> Seq<char> {
    decimal(units / ten_to(decimals)) + "."@ + padded(units % ten_to(decimals), decimals)
}

/// How many of the last decimal units a number has, to the nearest; of two that are equally near,
/// the even number.
pub open spec fn decimal_units(m: nat, decimals: nat) -> nat {
    nearest(magnitude_value(m) * ten_to(decimals), unit() as nat)
}

/// A number in fixed notation with so many decimals.
pub open spec fn fixed_text(a: Real, decimals: nat) -> Seq<char> {
    if !a.is_number() {
        "NaN"@
    } else {
        (if a.is_negative() {
            "-"@
        } else {
            ""@
        }) + (if a.is_finite() {
            pointed(decimal_units(a.magnitude(), decimals), decimals)
        } else {
            "inf"@
        })
    }
}

fn power_of_ten(n: u32) -> (r: u128)
    requires
        n <= 8,
    ensures
        r == ten_to(n as nat),
        1 <= r <= 100_000_000,
{
    reveal_with_fuel(ten_to, 9);
    let mut r: u128 = 1;
    let mut i: u32 = 0;
    while i < n
        invariant
            i <= n <= 8,
            r == ten_to(i as nat),
            ten_to(0) == 1 && ten_to(1) == 10 && ten_to(2) == 100 && ten_to(3) == 1000 && ten_to(
                4,
            ) == 10_000 && ten_to(5) == 100_000 && ten_to(6) == 1_000_000 && ten_to(7)
                == 10_000_000 && ten_to(8) == 100_000_000,
        decreases n - i,
    {
        r = 10 * r;
        i += 1;
    }
    r
}

fn append_padded(s: &mut String, n: u64, width: u32)
    ensures
        final(s)@ == old(s)@ + padded(n as nat, width as nat),
    decreases width,
{
    let ghost before = s@;
    if width == 0 {
        assert(before + padded(n as nat, 0) =~= before);
        return;
    }
    append_padded(s, n / 10, width - 1);
    let digit: u8 = 48 + (n % 10) as u8;
    s.push(digit as char);
    assert(s@ =~= before + padded(n as nat, width as nat));
}

// ---------------------------------------------------------------------------------------------
// Large whole numbers
// ---------------------------------------------------------------------------------------------

/// The number that decimal digits stand for, the lowest first.
pub open spec fn low_first(digits: Seq<u8>) -> nat
    decreases digits.len(),
{
    if digits.len() == 0 {
        0
    } else {
        digits[0] as nat + 10 * low_first(digits.skip(1))
    }
}

/// Whether digits are decimal ones, and the last of them is not zero.
pub open spec fn is_row(digits: Seq<u8>) -> bool {
    &&& digits.len() > 0
    &&& forall|i: int| 0 <= i < digits.len() ==> #[trigger] digits[i] < 10
    &&& digits.last() > 0
}

proof fn lemma_low_first_push(digits: Seq<u8>, d: u8)
    ensures
        low_first(digits.push(d)) == low_first(digits) + d as nat * ten_to(digits.len()),
    decreases digits.len(),
{
    let all = digits.push(d);
    if digits.len() == 0 {
        assert(all.skip(1) =~= Seq::<u8>::empty());
        assert(low_first(all.skip(1)) == 0);
        assert(ten_to(0) == 1);
        assert(d as nat * 1 == d);
    } else {
        let rest = digits.skip(1);
        lemma_low_first_push(rest, d);
        assert(all.skip(1) =~= rest.push(d));
        let p = ten_to(rest.len());
        assert(10 * (low_first(rest) + d as nat * p) == 10 * low_first(rest) + d as nat * (10 * p))
            by (nonlinear_arith);
    }
}

fn digits_of(n: u64) -> (digits: Vec<u8>)
    requires
        n > 0,
    ensures
        is_row(digits@),
        low_first(digits@) == n,
{
    let mut digits: Vec<u8> = Vec::new();
    let mut rest: u64 = n;
    let ghost mut p: nat = 1;
    while rest > 0
        invariant
            p == ten_to(digits@.len()),
            p > 0,
            n == low_first(digits@) + rest as nat * p,
            forall|i: int| 0 <= i < digits@.len() ==> #[trigger] digits@[i] < 10,
            digits@.len() > 0 && rest == 0 ==> digits@.last() > 0,
            rest == 0 ==> digits@.len() > 0,
            n > 0,
        decreases rest,
    {
        let d: u8 = (rest % 10) as u8;
        proof {
            lemma_low_first_push(digits@, d);
            let q = rest / 10;
            assert(rest as nat * p == q as nat * (10 * p) + d as nat * p) by (nonlinear_arith)
                requires
                    rest == 10 * q + d,
            ;
            p = 10 * p;
        }
        digits.push(d);
        rest = rest / 10;
    }
    assert(0 * p == 0);
    digits
}

fn doubled(digits: &Vec<u8>) -> (r: Vec<u8>)
    requires
        is_row(digits@),
    ensures
        is_row(r@),
        low_first(r@) == 2 * low_first(digits@),
{
    let mut r: Vec<u8> = Vec::new();
    let mut carry: u8 = 0;
    let mut i: usize = 0;
    let ghost mut p: nat = 1;
    assert(digits@.take(0) =~= Seq::<u8>::empty());
    while i < digits.len()
        invariant
            i <= digits@.len(),
            is_row(digits@),
            r@.len() == i,
            carry <= 1,
            p == ten_to(i as nat),
            low_first(r@) + carry as nat * p == 2 * low_first(digits@.take(i as int)),
            forall|j: int| 0 <= j < r@.len() ==> #[trigger] r@[j] < 10,
            i > 0 && carry == 0 && digits@[i - 1] > 0 ==> r@.last() > 0,
        decreases digits@.len() - i,
    {
        assert(digits@[i as int] < 10);
        let d: u8 = 2 * digits[i] + carry;
        proof {
            lemma_low_first_push(digits@.take(i as int), digits@[i as int]);
            lemma_low_first_push(r@, d % 10);
            assert(digits@.take(i + 1) =~= digits@.take(i as int).push(digits@[i as int]));
            let x = digits@[i as int];
            let low = d % 10;
            let high = d / 10;
            assert(low as nat * p + high as nat * (10 * p) == 2 * (x as nat * p) + carry as nat * p)
                by (nonlinear_arith)
                requires
                    low + 10 * high == 2 * x + carry,
            ;
            p = 10 * p;
        }
        r.push(d % 10);
        carry = d / 10;
        i += 1;
    }
    assert(digits@.take(i as int) =~= digits@);
    if carry > 0 {
        proof {
            lemma_low_first_push(r@, carry);
        }
        r.push(carry);
    } else {
        assert(carry as nat * p == 0);
        assert(digits@[i - 1] == digits@.last());
    }
    r
}

proof fn lemma_row_positive(digits: Seq<u8>)
    requires
        is_row(digits),
    ensures
        low_first(digits) > 0,
    decreases digits.len(),
{
    if digits.len() > 1 {
        let rest = digits.skip(1);
        assert(rest.last() == digits.last());
        lemma_row_positive(rest);
    } else {
        assert(digits[0] == digits.last());
    }
}

fn row_text(digits: &Vec<u8>) -> (s: String)
    requires
        is_row(digits@),
    ensures
        s@ == decimal(low_first(digits@)),
{
    let mut s = String::new();
    let mut i: usize = digits.len();
    while i > 0
        invariant
            i <= digits@.len(),
            is_row(digits@),
            i == digits@.len() ==> s@.len() == 0,
            i < digits@.len() ==> s@ == decimal(low_first(digits@.skip(i as int))),
        decreases i,
    {
        i -= 1;
        assert(digits@[i as int] < 10);
        let d = digits[i];
        let digit: u8 = 48 + d;
        let ghost before = s@;
        s.push(digit as char);
        proof {
            let here = digits@.skip(i as int);
            let rest = digits@.skip(i + 1);
            assert(here[0] == d);
            assert(here.skip(1) =~= rest);
            if i + 1 < digits@.len() {
                assert(rest.last() == digits@.last());
                assert forall|j: int| 0 <= j < rest.len() implies #[trigger] rest[j] < 10 by {
                    assert(rest[j] == digits@[i + 1 + j]);
                }
                lemma_row_positive(rest);
                assert(s@ =~= decimal(low_first(here)));
            } else {
                assert(rest =~= Seq::<u8>::empty());
                assert(low_first(rest) == 0);
                assert(s@ =~= decimal(low_first(here)));
            }
        }
    }
    assert(digits@.skip(0) =~= digits@);
    s
}

/// `m` times two to the power of `shift` in decimal notation.
fn large_whole(m: u64, shift: u32) -> (s: String)
    requires
        m > 0,
    ensures
        s@ == decimal((m * pow2(shift as nat)) as nat),
{
    let mut digits = digits_of(m);
    let mut i: u32 = 0;
    proof {
        vstd::arithmetic::power2::lemma2_to64();
        assert(m * 1 == m);
    }
    while i < shift
        invariant
            i <= shift,
            is_row(digits@),
            low_first(digits@) == m * pow2(i as nat),
        decreases shift - i,
    {
        proof {
            lemma_pow2_unfold((i + 1) as nat);
            let p = pow2(i as nat);
            assert(m * (2 * p) == 2 * (m * p)) by (nonlinear_arith);
        }
        digits = doubled(&digits);
        i += 1;
    }
    row_text(&digits)
}

// ---------------------------------------------------------------------------------------------
// Fixed notation
// ---------------------------------------------------------------------------------------------

fn power_of_two(t: u32) -> (r: u128)
    requires
        t <= 82,
    ensures
        r == pow2(t as nat),
        0 < r <= 0x4_0000_0000_0000_0000_0000,
{
    proof {
        vstd::arithmetic::power2::lemma2_to64();
        vstd::arithmetic::power2::lemma2_to64_rest();
        lemma_pow2_adds(64, 18);
        lemma_pow2_pos(t as nat);
        if t < 82 {
            lemma_pow2_strictly_increases(t as nat, 82);
        }
    }
    if t < 18 {
        assert(1 * pow2(t as nat) == pow2(t as nat));
        shifted(1, t)
    } else {
        proof {
            lemma_pow2_adds(18, (t - 18) as nat);
        }
        shifted(262_144, t - 18)
    }
}

/// The decimal units of a number below two to the power of 53.
fn small_units(ma: u64, t: u32, scale: u128) -> (r: u128)
    requires
        ma < EXACT,
        1 <= scale <= 100_000_000,
        0 < t,
    ensures
        r == nearest((ma * scale) as nat, pow2(t as nat)),
        r <= ma * scale + 1,
{
    proof {
        lemma_pow2_pos(t as nat);
        assert(ma * scale < 0x20_0000_0000_0000 * 0x800_0000) by (nonlinear_arith)
            requires
                ma < 0x20_0000_0000_0000,
                1 <= scale <= 100_000_000,
        ;
    }
    let n: u128 = ma as u128 * scale;
    if t > 82 {
        proof {
            vstd::arithmetic::power2::lemma2_to64();
            vstd::arithmetic::power2::lemma2_to64_rest();
            lemma_pow2_adds(64, 18);
            lemma_pow2_strictly_increases(82, t as nat);
            let p = pow2(t as nat);
            assert(n as nat / p == 0 && n as nat % p == n) by (nonlinear_arith)
                requires
                    n < p,
            ;
        }
        return 0;
    }
    nearest_to(n, power_of_two(t))
}

fn append_pointed(s: &mut String, units: u128, scale: u128, decimals: u32)
    requires
        scale == ten_to(decimals as nat),
        1 <= scale <= 100_000_000,
        units / scale <= u64::MAX,
    ensures
        final(s)@ == old(s)@ + pointed(units as nat, decimals as nat),
{
    let ghost before = s@;
    let high: u128 = units / scale;
    let low: u128 = units % scale;
    s.append(number(high as u64).as_str());
    s.append(".");
    append_padded(s, low as u64, decimals);
    assert(s@ =~= before + pointed(units as nat, decimals as nat));
}

fn append_large(s: &mut String, ma: u64, d: u32, scale: u128, decimals: u32)
    requires
        ma > 0,
        scale == ten_to(decimals as nat),
        scale > 0,
    ensures
        final(s)@ == old(s)@ + pointed(
            ((ma * pow2(d as nat)) * scale) as nat,
            decimals as nat,
        ),
{
    let ghost before = s@;
    s.append(large_whole(ma, d).as_str());
    s.append(".");
    append_padded(s, 0, decimals);
    proof {
        let k = (ma * pow2(d as nat)) as nat;
        let t = scale as nat;
        vstd::arithmetic::div_mod::lemma_fundamental_div_mod_converse(
            (k * t) as int,
            t as int,
            k as int,
            0,
        );
        assert(s@ =~= before + pointed(k * t, decimals as nat));
    }
}

/// A whole number in fixed notation has zeros as its decimals.
pub proof fn lemma_fixed_whole(n: nat, decimals: nat)
    requires
        n < EXACT,
    ensures
        fixed_text(whole(n), decimals) == decimal(n) + "."@ + padded(0, decimals),
        forall|i: int| 0 <= i < decimals ==> padded(0, decimals)[i] == '0',
        padded(0, decimals).len() == decimals,
{
    reveal_strlit("");
    lemma_whole_exact(n);
    lemma_pow2_pos(1074);
    lemma_ten_positive(decimals);
    let a = whole(n);
    let u = unit() as nat;
    let t = ten_to(decimals);
    assert((n * u) * t == (n * t) * u) by (nonlinear_arith);
    assert(1 * u == u);
    lemma_nearest_scaled(n * t, 1, u);
    let k = n * t;
    assert(k / 1 == k && k % 1 == 0);
    vstd::arithmetic::div_mod::lemma_fundamental_div_mod_converse(
        k as int,
        t as int,
        n as int,
        0,
    );
    lemma_padded_zero(decimals);
    assert(fixed_text(a, decimals) =~= decimal(n) + "."@ + padded(0, decimals));
}

/// A power of ten is positive.
pub proof fn lemma_ten_positive(n: nat)
    ensures
        ten_to(n) > 0,
    decreases n,
{
    if n > 0 {
        lemma_ten_positive((n - 1) as nat);
    }
}

proof fn lemma_padded_zero(width: nat)
    ensures
        padded(0, width).len() == width,
        forall|i: int| 0 <= i < width ==> padded(0, width)[i] == '0',
    decreases width,
{
    if width > 0 {
        lemma_padded_zero((width - 1) as nat);
    }
}

/// Whether a text is a number in fixed notation: a sign where it is negative, digits, a point, and so
/// many digits.
pub open spec fn is_fixed(s: Seq<char>, decimals: nat) -> bool {
    let body = without_sign(s);
    let p = body.len() - decimals - 1;
    &&& p > 0
    &&& body[p] == '.'
    &&& all_digits(body.take(p))
    &&& forall|i: int| p < i < body.len() ==> is_digit(#[trigger] body[i])
}

/// The text after a minus sign, if it begins with one.
pub open spec fn without_sign(s: Seq<char>) -> Seq<char> {
    if s.len() > 0 && s[0] == '-' {
        s.skip(1)
    } else {
        s
    }
}

/// How many of the last decimal units a number in fixed notation stands for.
pub open spec fn fixed_units(s: Seq<char>, decimals: nat) -> int {
    let body = without_sign(s);
    let p = body.len() - decimals - 1;
    let units = digits_value(body.take(p)) * ten_to(decimals) + digits_value(body.skip(p + 1));
    if s.len() > 0 && s[0] == '-' {
        -(units as int)
    } else {
        units as int
    }
}

/// Whether a text is a number in fixed notation that stands for `a`, as near as its decimals allow.
pub open spec fn stands_for(s: Seq<char>, a: Real, decimals: nat) -> bool {
    &&& is_fixed(s, decimals)
    &&& 2 * apart(fixed_units(s, decimals) * unit(), a.value() * ten_to(decimals)) <= unit()
}

/// The last digits of a number are read back as what they are digits of.
pub proof fn lemma_padded_value(n: nat, width: nat)
    requires
        n < ten_to(width),
    ensures
        padded(n, width).len() == width,
        digits_value(padded(n, width)) == n,
        forall|i: int| 0 <= i < width ==> is_digit(#[trigger] padded(n, width)[i]),
    decreases width,
{
    let s = padded(n, width);
    if width > 0 {
        lemma_padded_value(n / 10, (width - 1) as nat);
        assert(s.drop_last() =~= padded(n / 10, (width - 1) as nat));
    } else {
        assert(ten_to(0) == 1);
    }
}

/// A number with its point is read back as the units that it was made of.
pub proof fn lemma_pointed_value(units: nat, decimals: nat)
    ensures
        is_fixed(pointed(units, decimals), decimals),
        fixed_units(pointed(units, decimals), decimals) == units,
        pointed(units, decimals)[0] != '-',
        pointed(units, decimals).len() > decimals + 1,
        pointed(units, decimals) == decimal(units / ten_to(decimals)) + "."@ + padded(
            units % ten_to(decimals),
            decimals,
        ),
{
    reveal_strlit(".");
    lemma_ten_positive(decimals);
    let t = ten_to(decimals);
    let high = units / t;
    let low = units % t;
    assert(units == high * t + low && low < t) by (nonlinear_arith)
        requires
            high == units / t,
            low == units % t,
            t > 0,
    ;
    let s = pointed(units, decimals);
    let p = decimal(high).len() as int;
    lemma_decimal_digits(high);
    lemma_decimal_value(high);
    lemma_padded_value(low, decimals);
    assert(is_digit(decimal(high)[0]));
    assert(s[0] == decimal(high)[0]);
    assert(s.take(p) =~= decimal(high));
    assert(s.skip(p + 1) =~= padded(low, decimals));
    assert(s[p] == '.');
    assert forall|i: int| p < i < s.len() implies is_digit(#[trigger] s[i]) by {
        assert(s[i] == padded(low, decimals)[i - p - 1]);
    }
}

/// A finite number in fixed notation is read back as a number that differs from it by at most half of
/// the last decimal.
pub proof fn law_notation_is_near(a: Real, decimals: nat)
    requires
        a.is_finite(),
    ensures
        stands_for(fixed_text(a, decimals), a, decimals),
{
    reveal_strlit("");
    reveal_strlit("-");
    lemma_pow2_pos(1074);
    let u = unit() as nat;
    let v = magnitude_value(a.magnitude());
    let t = ten_to(decimals);
    let units = decimal_units(a.magnitude(), decimals);
    lemma_nearest_bounds(v * t, u, 0);
    lemma_pointed_value(units, decimals);
    let body = pointed(units, decimals);
    let s = fixed_text(a, decimals);
    if a.is_negative() {
        assert(s.skip(1) =~= body);
        assert(s[0] == '-');
        assert((-(v as int)) * t == -(v * t)) by (nonlinear_arith);
        assert((-(units as int)) * u == -(units * u)) by (nonlinear_arith);
    } else {
        assert(s =~= body);
    }
}

/// Two finite numbers whose fixed notations are the same differ by at most the last decimal.
pub proof fn law_notations_tell_numbers_apart(a: Real, b: Real, decimals: nat)
    requires
        a.is_finite(),
        b.is_finite(),
        fixed_text(a, decimals) == fixed_text(b, decimals),
    ensures
        apart(a.value() * ten_to(decimals), b.value() * ten_to(decimals)) <= unit(),
{
    law_notation_is_near(a, decimals);
    law_notation_is_near(b, decimals);
}

/// A number in fixed notation with so many decimals.
pub fn fixed(a: Real, decimals: u32) -> (s: String)
    requires
        1 <= decimals <= 8,
    ensures
        s@ == fixed_text(a, decimals as nat),
{
    let m = magnitude_of(a);
    if m > INFINITY {
        return "NaN".to_string();
    }
    let mut s = if a.bits >= SIGN {
        "-".to_string()
    } else {
        "".to_string()
    };
    if m == INFINITY {
        s.append("inf");
        return s;
    }
    let scale = power_of_ten(decimals);
    let (ma, e) = parts(m);
    let ghost u = pow2(1074);
    let ghost v = magnitude_value(m as nat);
    proof {
        lemma_parts(m as nat);
        lemma_pow2_pos(1074);
        lemma_pow2_pos(e as nat);
    }
    if e >= 1074 {
        let d: u32 = e - 1074;
        proof {
            lemma_pow2_adds(d as nat, 1074);
            let p = pow2(d as nat);
            let k = ((ma * p) * scale) as nat;
            assert((ma * (p * u)) * scale == ((ma * p) * scale) * u) by (nonlinear_arith);
            assert(1 * u == u);
            lemma_nearest_scaled(k, 1, u);
            assert(k / 1 == k && k % 1 == 0);
        }
        append_large(&mut s, ma, d, scale, decimals);
    } else {
        let t: u32 = 1074 - e;
        proof {
            lemma_pow2_adds(t as nat, e as nat);
            lemma_pow2_pos(t as nat);
            let p = pow2(t as nat);
            let x = pow2(e as nat);
            assert((ma * x) * scale == (ma * scale) * x) by (nonlinear_arith);
            lemma_nearest_scaled((ma * scale) as nat, p, x);
        }
        let units = small_units(ma, t, scale);
        assert(units / scale <= ma + 1) by (nonlinear_arith)
            requires
                units <= ma * scale + 1,
                scale >= 1,
        ;
        append_pointed(&mut s, units, scale, decimals);
    }
    s
}

} // verus!
