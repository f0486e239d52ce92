//! Rounding to double precision, in whole numbers: of a fraction, the 53 highest binary digits are
//! kept, and the rest decides whether the last of them is raised.

use crate::double::{INFINITY, STEP};
use vstd::arithmetic::power2::{lemma_pow2_adds, lemma_pow2_pos, lemma_pow2_strictly_increases, lemma_pow2_unfold, pow2};
use vstd::prelude::*;

verus! {

/// Two to the power of 53: whole numbers up to here have at most 53 binary digits.
pub const EXACT: u128 = 0x20_0000_0000_0000;

/// The whole number nearest to `n / d`; of two that are equally near, the even one.
pub open spec fn nearest(n: nat, d: nat) -> nat {
    let q = n / d;
    let r = n % d;
    if 2 * r < d || (2 * r == d && q % 2 == 0) {
        q
    } else {
        q + 1
    }
}

/// Whether 53 binary digits of `n / d` are left in units of two to the power of `k`, or `k` is zero
/// and there are fewer.
pub open spec fn is_grain(n: nat, d: nat, k: nat) -> bool {
    &&& n < EXACT as nat * (pow2(k) * d)
    &&& k == 0 || 2 * n >= EXACT as nat * (pow2(k) * d)
}

/// The number that `is_grain` speaks of.
pub open spec fn grain(n: nat, d: nat) -> nat {
    choose|k: nat| is_grain(n, d, k)
}

/// The bit pattern of the double nearest to `n / d` units of two to the power of -1074; of two that
/// are equally near, the even one; and infinity where that is beyond the largest double.
pub open spec fn rounded(n: nat, d: nat) -> u64 {
    let k = grain(n, d);
    let bits = k * STEP as nat + nearest(n, pow2(k) * d);
    if bits < INFINITY {
        bits as u64
    } else {
        INFINITY
    }
}

/// There is only one grain.
pub proof fn lemma_grain(n: nat, d: nat, k: nat)
    requires
        d > 0,
        is_grain(n, d, k),
    ensures
        grain(n, d) == k,
{
    let g = grain(n, d);
    assert(is_grain(n, d, g));
    if k < g {
        lemma_grains_apart(n, d, k, g);
    } else if g < k {
        lemma_grains_apart(n, d, g, k);
    }
}

proof fn lemma_grains_apart(n: nat, d: nat, a: nat, b: nat)
    requires
        d > 0,
        a < b,
        is_grain(n, d, a),
    ensures
        !is_grain(n, d, b),
{
    lemma_pow2_adds(a, (b - a) as nat);
    lemma_pow2_unfold((b - a) as nat);
    lemma_pow2_pos((b - a - 1) as nat);
    lemma_pow2_pos(a);
    let p = pow2(a);
    let c = pow2((b - a) as nat);
    assert(EXACT as nat * (p * c * d) >= 2 * (EXACT as nat * (p * d))) by (nonlinear_arith)
        requires
            c >= 2,
            p > 0,
            d > 0,
    ;
}

/// A factor of both numbers does not matter.
pub proof fn lemma_nearest_scaled(n: nat, d: nat, c: nat)
    requires
        d > 0,
        c > 0,
    ensures
        nearest(n * c, d * c) == nearest(n, d),
{
    let q = n / d;
    let r = n % d;
    assert(n == q * d + r && 0 <= r < d) by (nonlinear_arith)
        requires
            q == n / d,
            r == n % d,
            d > 0,
    ;
    assert(n * c == q * (d * c) + r * c && 0 <= r * c < d * c) by (nonlinear_arith)
        requires
            n == q * d + r,
            0 <= r < d,
            c > 0,
    ;
    vstd::arithmetic::div_mod::lemma_fundamental_div_mod_converse(
        (n * c) as int,
        (d * c) as int,
        q as int,
        (r * c) as int,
    );
    assert(2 * (r * c) < d * c <==> 2 * r < d) by (nonlinear_arith)
        requires
            c > 0,
    ;
    assert(2 * (r * c) == d * c <==> 2 * r == d) by (nonlinear_arith)
        requires
            c > 0,
    ;
}

/// The whole number nearest to `n / d`; of two that are equally near, the even one.
pub fn nearest_to(n: u128, d: u128) -> (r: u128)
    requires
        0 < d <= 0x4000_0000_0000_0000_0000_0000_0000_0000,
        n <= 0x4000_0000_0000_0000_0000_0000_0000_0000,
    ensures
        r == nearest(n as nat, d as nat),
        r <= n + 1,
{
    let q: u128 = n / d;
    let r: u128 = n % d;
    assert(q <= n) by (nonlinear_arith)
        requires
            q == n / d,
            d > 0,
    ;
    if 2 * r < d || (2 * r == d && q % 2 == 0) {
        q
    } else {
        q + 1
    }
}

/// The double nearest to `n / d` units of two to the power of `s - 1074`.
pub open spec fn rounded_at(n: nat, d: nat, s: int) -> u64 {
    if s >= 0 {
        rounded(n * pow2(s as nat), d)
    } else {
        rounded(n, pow2((-s) as nat) * d)
    }
}

fn bits_of(k: u32, q: u128) -> (r: u64)
    requires
        q <= EXACT,
        k <= 10_000,
    ensures
        r == if k * STEP + q < INFINITY {
            (k * STEP + q) as u64
        } else {
            INFINITY
        },
{
    assert(k * STEP <= 10_000 * 0x10_0000_0000_0000);
    let bits: u128 = k as u128 * STEP as u128 + q;
    if bits < INFINITY as u128 {
        bits as u64
    } else {
        INFINITY
    }
}

proof fn lemma_at_most_exact(n: nat, d: nat)
    requires
        d > 0,
        n < EXACT as nat * d,
    ensures
        nearest(n, d) <= EXACT,
{
    let q = n / d;
    assert(q < EXACT) by (nonlinear_arith)
        requires
            q == n / d,
            d > 0,
            n < 0x20_0000_0000_0000nat * d,
    ;
}

proof fn lemma_small_exponent(e: nat, y: nat)
    requires
        pow2(e) <= y,
        y < 0x20_0000_0000_0000_0000,
    ensures
        e < 69,
{
    vstd::arithmetic::power2::lemma2_to64();
    vstd::arithmetic::power2::lemma2_to64_rest();
    lemma_pow2_adds(64, 5);
    if e > 69 {
        lemma_pow2_strictly_increases(69, e);
    }
}

/// Rounds a fraction with an exponent that is not negative.
fn round_up_scaled(n: u128, d: u128, s: u32) -> (r: u64)
    requires
        0 < n,
        0 < d,
        (d == 1 && n < 0x100_0000_0000_0000_0000_0000_0000_0000) || (n < EXACT && d < EXACT),
        s <= 5_000,
    ensures
        r == rounded((n * pow2(s as nat)) as nat, d as nat),
{
    let mut x: u128 = n;
    let mut up: u32 = 0;
    proof {
        vstd::arithmetic::power2::lemma2_to64();
    }
    while up < s && 2 * x < EXACT * d
        invariant
            0 < n <= x,
            0 < d < EXACT,
            up <= s <= 5_000,
            x == n * pow2(up as nat),
            x < 0x100_0000_0000_0000_0000_0000_0000_0000,
            up > 0 ==> x < EXACT * d,
        decreases s - up,
    {
        proof {
            lemma_pow2_unfold((up + 1) as nat);
            let p = pow2(up as nat);
            assert(n * (2 * p) == 2 * (n * p)) by (nonlinear_arith);
        }
        x = 2 * x;
        up += 1;
    }
    let mut y: u128 = d;
    let mut down: u32 = 0;
    while x / EXACT >= y
        invariant
            0 < d <= y,
            0 < x < 0x100_0000_0000_0000_0000_0000_0000_0000,
            y == d * pow2(down as nat),
            y < 0x20_0000_0000_0000_0000,
            pow2(down as nat) <= y,
            down > 0 ==> up == 0 && 2 * x >= EXACT * y,
            down == 0 ==> y == d,
            up > 0 ==> x < EXACT * d,
        decreases x - y,
    {
        proof {
            lemma_small_exponent(down as nat, y as nat);
            lemma_pow2_unfold((down + 1) as nat);
            let p = pow2(down as nat);
            assert(d * (2 * p) == 2 * (d * p)) by (nonlinear_arith);
            assert(p > 0);
            assert(2 * p <= 2 * (d * p)) by (nonlinear_arith)
                requires
                    d >= 1,
                    p > 0,
            ;
        }
        y = 2 * y;
        down += 1;
    }
    proof {
        lemma_small_exponent(down as nat, y as nat);
    }
    let q = nearest_to(x, y);
    let k: u32 = s - up + down;
    proof {
        let all = (n * pow2(s as nat)) as nat;
        lemma_pow2_adds(up as nat, (s - up) as nat);
        lemma_pow2_adds(s as nat, down as nat);
        lemma_pow2_pos((s - up) as nat);
        lemma_pow2_pos(s as nat);
        let a = pow2(up as nat);
        let b = pow2((s - up) as nat);
        let c = pow2(down as nat);
        let e = pow2(s as nat);
        let unit = pow2(k as nat) * d as nat;
        if down == 0 {
            assert(n * (a * b) == (n * a) * b && b * d == d * b) by (nonlinear_arith);
            lemma_grain_from(x as nat, d as nat, b, all, unit);
            lemma_nearest_scaled(x as nat, d as nat, b);
        } else {
            assert((e * c) * d == (d * c) * e) by (nonlinear_arith);
            lemma_grain_from(x as nat, y as nat, e, all, unit);
            lemma_nearest_scaled(x as nat, y as nat, e);
        }
        lemma_grain(all, d as nat, k as nat);
        lemma_at_most_exact(x as nat, y as nat);
    }
    bits_of(k, q)
}

/// Rounds a fraction with a negative exponent.
fn round_down_scaled(n: u128, d: u128, t: u32) -> (r: u64)
    requires
        0 < n,
        0 < d,
        (d == 1 && n < 0x100_0000_0000_0000_0000_0000_0000_0000) || (n < EXACT && d < EXACT),
        t <= 5_000,
    ensures
        r == rounded(n as nat, (pow2(t as nat) * d) as nat),
{
    proof {
        vstd::arithmetic::power2::lemma2_to64();
        vstd::arithmetic::power2::lemma2_to64_rest();
        lemma_pow2_pos(t as nat);
    }
    if t > 120 || (d > 1 && t > 54) {
        proof {
            lemma_pow2_adds(60, 61);
            lemma_pow2_adds(60, 60);
            if d > 1 {
                if t > 55 {
                    lemma_pow2_strictly_increases(55, t as nat);
                }
            } else if t > 121 {
                lemma_pow2_strictly_increases(121, t as nat);
            }
            let p = pow2(t as nat);
            let all = p * d as nat;
            assert(all >= p) by (nonlinear_arith)
                requires
                    all == p * d,
                    d >= 1,
            ;
            assert(2 * n < all);
            assert(pow2(0) * all == all);
            lemma_grain(n as nat, all, 0);
            assert(n as nat / all == 0 && n as nat % all == n) by (nonlinear_arith)
                requires
                    2 * n < all,
                    n >= 0,
            ;
        }
        return 0;
    }
    let mut y: u128 = d;
    let mut down: u32 = 0;
    while down < t
        invariant
            0 < d <= y,
            down <= t <= 120,
            d > 1 ==> t <= 54,
            d < EXACT,
            y == d * pow2(down as nat),
        decreases t - down,
    {
        proof {
            lemma_pow2_unfold((down + 1) as nat);
            let p = pow2(down as nat);
            assert(d * (2 * p) == 2 * (d * p)) by (nonlinear_arith);
            lemma_small_product(d as nat, down as nat);
        }
        y = 2 * y;
        down += 1;
    }
    proof {
        lemma_small_product(d as nat, down as nat);
    }
    let ghost first = y;
    while n / EXACT >= y
        invariant
            0 < d <= y,
            0 < n < 0x100_0000_0000_0000_0000_0000_0000_0000,
            t <= down,
            y == d * pow2(down as nat),
            y <= 0x100_0000_0000_0000_0000_0000_0000_0000,
            pow2(down as nat) <= y,
            down > t ==> 2 * n >= EXACT * y,
            down == t ==> y == first,
            down <= 120,
        decreases n - y,
    {
        proof {
            lemma_small_exponent(down as nat, y as nat);
            lemma_pow2_unfold((down + 1) as nat);
            let p = pow2(down as nat);
            assert(d * (2 * p) == 2 * (d * p)) by (nonlinear_arith);
            assert(2 * p <= 2 * (d * p)) by (nonlinear_arith)
                requires
                    d >= 1,
                    p > 0,
            ;
        }
        y = 2 * y;
        down += 1;
    }
    let q = nearest_to(n, y);
    let k: u32 = down - t;
    proof {
        let p = pow2(t as nat);
        let c = pow2(k as nat);
        lemma_pow2_adds(k as nat, t as nat);
        assert(c * (p * d) == d * (c * p)) by (nonlinear_arith);
        assert(c * (p * d as nat) == y as nat);
        lemma_grain(n as nat, p * d as nat, k as nat);
        lemma_at_most_exact(n as nat, y as nat);
    }
    bits_of(k, q)
}

proof fn lemma_small_product(d: nat, e: nat)
    requires
        0 < d < EXACT,
        e <= 120,
        d > 1 ==> e <= 54,
    ensures
        d * pow2(e) <= 0x100_0000_0000_0000_0000_0000_0000_0000,
        pow2(e) <= d * pow2(e),
        pow2(e) > 0,
{
    vstd::arithmetic::power2::lemma2_to64();
    vstd::arithmetic::power2::lemma2_to64_rest();
    lemma_pow2_adds(60, 60);
    lemma_pow2_pos(e);
    let p = pow2(e);
    if d == 1 {
        if e < 120 {
            lemma_pow2_strictly_increases(e, 120);
        }
        assert(d * p == p);
    } else {
        if e < 54 {
            lemma_pow2_strictly_increases(e, 54);
        }
        assert(d * p <= 0x20_0000_0000_0000nat * 0x40_0000_0000_0000nat) by (nonlinear_arith)
            requires
                d < 0x20_0000_0000_0000,
                p <= 0x40_0000_0000_0000,
        ;
        assert(p <= d * p) by (nonlinear_arith)
            requires
                d >= 1,
                p > 0,
        ;
    }
}

/// The double nearest to `n / d` units of two to the power of `s - 1074`.
pub fn round_at(n: u128, d: u128, s: i32) -> (r: u64)
    requires
        0 < d,
        (d == 1 && n < 0x100_0000_0000_0000_0000_0000_0000_0000) || (n < EXACT && d < EXACT),
        -5_000 <= s <= 5_000,
    ensures
        r == rounded_at(n as nat, d as nat, s as int),
        r <= INFINITY,
{
    if n == 0 {
        proof {
            lemma_rounded_zero(n as nat, d as nat, s as int);
        }
        return 0;
    }
    if s >= 0 {
        round_up_scaled(n, d, s as u32)
    } else {
        round_down_scaled(n, d, (-s) as u32)
    }
}

/// Zero is rounded to zero.
pub proof fn lemma_rounded_zero(n: nat, d: nat, s: int)
    requires
        n == 0,
        d > 0,
    ensures
        rounded_at(n, d, s) == 0,
{
    vstd::arithmetic::power2::lemma2_to64();
    let e = if s >= 0 {
        1nat
    } else {
        pow2((-s) as nat)
    };
    if s < 0 {
        lemma_pow2_pos((-s) as nat);
    }
    let all = e * d;
    assert(all > 0) by (nonlinear_arith)
        requires
            all == e * d,
            e > 0,
            d > 0,
    ;
    assert(1 * all == all);
    assert(n * pow2(s as nat) == 0);
    lemma_grain(0, all, 0);
    assert(0nat / all == 0 && 0nat % all == 0) by (nonlinear_arith)
        requires
            all > 0,
    ;
}

proof fn lemma_grain_from(x: nat, y: nat, c: nat, n: nat, unit: nat)
    requires
        n == x * c,
        unit == y * c,
        c > 0,
        x < EXACT * y,
    ensures
        n < EXACT as nat * unit,
        2 * x >= EXACT * y ==> 2 * n >= EXACT as nat * unit,
{
    assert(x * c < 0x20_0000_0000_0000nat * (y * c)) by (nonlinear_arith)
        requires
            c > 0,
            x < 0x20_0000_0000_0000nat * y,
    ;
    if 2 * x >= EXACT * y {
        assert(2 * (x * c) >= 0x20_0000_0000_0000nat * (y * c)) by (nonlinear_arith)
            requires
                2 * x >= 0x20_0000_0000_0000nat * y,
        ;
    }
}

} // verus!
