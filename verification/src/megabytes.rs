//! File sizes in millions of bytes, with two decimals.

use crate::arithmetic::{
    apart, lemma_nearest_bounds, lemma_parts, lemma_rounded_at_most, lemma_rounded_scaled,
    lemma_rounded_value, lemma_whole_exact, mantissa, quotient, whole,
};
use crate::double::{lemma_constants, magnitude_value, unit, Real, MILLION};
use crate::notation::{
    decimal_units, fixed, fixed_text, fixed_units, is_fixed, lemma_pointed_value, pointed, ten_to,
};
use crate::rounding::{grain, nearest, rounded, EXACT};
use vstd::arithmetic::power2::{
    lemma_pow2_adds, lemma_pow2_pos, lemma_pow2_strictly_increases, pow2,
};
use vstd::prelude::*;

verus! {

/// A file size in millions of bytes.
pub open spec fn in_megabytes(bytes: nat) -> Real {
    quotient(whole(bytes), Real { bits: MILLION })
}

/// A file size in millions of bytes, with two decimals and the unit.
pub open spec fn megabytes_text(bytes: nat) -> Seq<char> {
    fixed_text(in_megabytes(bytes), 2) + " MB"@
}

/// A file size in millions of bytes, with two decimals and the unit.
pub fn format_mb(bytes: u64) -> (s: String)
    ensures
        s@ == megabytes_text(bytes as nat),
{
    let mut s = fixed(Real::from_whole(bytes).over(Real { bits: MILLION }), 2);
    s.append(" MB");
    s
}

/// The pattern of a million stands for it.
pub proof fn lemma_million()
    ensures
        magnitude_value(MILLION as nat) == 1_000_000 * unit(),
        (Real { bits: MILLION }).is_finite(),
        unit() > 0,
{
    lemma_constants();
    vstd::arithmetic::power2::lemma2_to64();
    lemma_parts(MILLION as nat);
    vstd::arithmetic::power2::lemma2_to64_rest();
    lemma_pow2_adds(1041, 33);
    let p = pow2(1041);
    assert(mantissa(MILLION as nat) == 1_000_000 * 0x2_0000_0000);
    assert(1_000_000 * 0x2_0000_0000 * p == 1_000_000 * (p * 0x2_0000_0000)) by (nonlinear_arith);
}

/// Up to 53 binary digits, the hundredths that are shown are as near to the size as hundredths
/// can be.
pub proof fn law_shown_size_is_nearest(bytes: nat)
    requires
        bytes < EXACT,
    ensures
        in_megabytes(bytes).is_finite(),
        ({
            let shown = decimal_units(in_megabytes(bytes).magnitude(), 2);
            10_000 * shown <= bytes + 5_000 && bytes <= 10_000 * shown + 5_000
        }),
{
    lemma_million();
    lemma_whole_exact(bytes);
    let u = unit() as nat;
    let a = whole(bytes);
    let n = bytes * u;
    let r = in_megabytes(bytes);
    lemma_rounded_scaled(n, 1_000_000, u);
    assert(rounded(n, 1_000_000) == r.bits);
    lemma_rounded_at_most(n, 1_000_000, a.magnitude());
    lemma_rounded_value(n, 1_000_000);
    let k = grain(n, 1_000_000);
    let p = pow2(k);
    let w = p * 1_000_000;
    lemma_pow2_pos(k);
    let q = nearest(n, w);
    let v = magnitude_value(r.magnitude());
    lemma_nearest_bounds(n, w, 0);
    assert(v == q * p);
    assert(q * w == 1_000_000 * v) by (nonlinear_arith)
        requires
            v == q * p,
            w == p * 1_000_000,
    ;
    assert(w < 2 * u) by {
        if k > 0 {
            assert(w < 2 * u) by (nonlinear_arith)
                requires
                    2 * n >= 0x20_0000_0000_0000 * w,
                    n == bytes * u,
                    bytes < 0x20_0000_0000_0000,
                    u > 0,
            ;
        } else {
            vstd::arithmetic::power2::lemma2_to64();
            lemma_pow2_strictly_increases(32, 1074);
        }
    }
    assert(ten_to(2) == 100) by {
        reveal_with_fuel(ten_to, 3);
    }
    let h = nearest(v * 100, u);
    lemma_nearest_bounds(v * 100, u, 0);
    assert(10_000 * h <= bytes + 5_000 && bytes <= 10_000 * h + 5_000) by (nonlinear_arith)
        requires
            2 * (1_000_000 * v) <= 2 * n + w,
            2 * n <= 2 * (1_000_000 * v) + w,
            2 * (h * u) <= 2 * (v * 100) + u,
            2 * (v * 100) <= 2 * (h * u) + u,
            n == bytes * u,
            w < 2 * u,
            u > 0,
    ;
}

/// A size is shown as a number with two decimals and the unit; up to 53 binary digits, the number is as
/// near to the size in millions of bytes as two decimals can be.
pub proof fn law_size_is_shown_in_megabytes(bytes: nat)
    requires
        bytes < EXACT,
    ensures
        exists|n: Seq<char>| #[trigger]
            is_fixed(n, 2) && megabytes_text(bytes) == n + " MB"@ && apart(
                10_000 * fixed_units(n, 2),
                bytes as int,
            ) <= 5_000,
{
    reveal_strlit("");
    law_shown_size_is_nearest(bytes);
    lemma_whole_exact(bytes);
    lemma_million();
    let a = in_megabytes(bytes);
    let units = decimal_units(a.magnitude(), 2);
    lemma_pointed_value(units, 2);
    let n = fixed_text(a, 2);
    assert(n =~= pointed(units, 2));
    assert(is_fixed(n, 2));
}

} // verus!
