//! Exports that aim at a file size: what a first pass is made with, and what the next pass is
//! made with once the file turned out too large.

use crate::arithmetic::{
    apart, difference, floor_u32, lemma_difference_error, lemma_large, lemma_parts,
    lemma_product_error, lemma_quotient_error, lemma_ratio_near, lemma_rounded_at_least,
    lemma_rounded_at_most, lemma_rounding_is_small, lemma_scaled_at_most, lemma_times,
    lemma_unit_is_large, lemma_whole_error, lemma_whole_exact, mantissa, product, quotient, round_u64, whole, LARGE,
};
use crate::commands::{
    has_rate, is_number_text, law_sound_follows_picture, video_args, ArgView, VideoPass,
};
use crate::double::{
    lemma_constants, lemma_magnitudes_ordered, lemma_zero, magnitude_value, unit, Real, INFINITY,
    MILLION, ONE, STEP, THIRTY, THOUSAND,
};
use crate::megabytes::{format_mb, lemma_million, megabytes_text};
use crate::notation::{fixed, fixed_text, law_notation_is_near, stands_for};
use crate::options::{
    kind_of, output_kind, reduced, reduced_output_resolution, OutputKind, SpeedOptions, GIF_FPS,
    MIN_GIF_FPS,
};
use crate::rounding::rounded;
use crate::text::{
    cat3, cat5, decimal, digits_value, lemma_decimal_digits, lemma_decimal_value, lowered, number,
};
use crate::video::VideoClip;
use vstd::arithmetic::power::{lemma_pow_adds, lemma_pow_distributes, lemma_pow_positive, pow};
use vstd::arithmetic::power2::{lemma_pow2_adds, lemma_pow2_pos, pow2};
use vstd::prelude::*;

verus! {

/// The lowest video bit rate, in thousands of bits a second.
pub const MIN_VIDEO_BITRATE_KBPS: u32 = 64;

/// The shortest that a side of an animation is made for the sake of its size.
pub const MIN_GIF_RESOLUTION: u32 = 240;

/// How many passes a video is given to meet a size.
pub const VIDEO_TARGET_ATTEMPTS: u32 = 4;

/// How many passes an animation is given to meet a size.
pub const GIF_TARGET_ATTEMPTS: u32 = 8;

/// How far below the last one a bit rate is set, where scaling it leads no lower.
pub const BITRATE_STEP: u32 = 32;

/// How far below the last one a side is set, where scaling it leads no lower.
pub const RESOLUTION_STEP: u32 = 80;

/// The bit pattern of 8.
pub const EIGHT: u64 = 0x4020_0000_0000_0000;

/// The bit pattern of 64, the lowest video bit rate.
pub const LOWEST_RATE: u64 = 0x4050_0000_0000_0000;

/// The bit pattern of 0.94, the share of a size that is given to picture and sound.
pub const PAYLOAD_SHARE: u64 = 0x3fee_147a_e147_ae14;

/// The bit pattern of 0.92, by which a bit rate is lowered beyond what a size calls for.
pub const RETRY_SHARE: u64 = 0x3fed_70a3_d70a_3d71;

/// The bit pattern of 0.2, the least factor of a bit rate.
pub const LEAST_RATE_FACTOR: u64 = 0x3fc9_9999_9999_999a;

/// The bit pattern of 0.95, the largest factor of a bit rate.
pub const LARGEST_RATE_FACTOR: u64 = 0x3fee_6666_6666_6666;

/// The bit pattern of 0.18, the least ratio of two sizes of an animation that counts.
pub const LEAST_GIF_RATIO: u64 = 0x3fc7_0a3d_70a3_d70a;

/// The bit pattern of 0.9, the largest ratio of two sizes of an animation that counts.
pub const LARGEST_GIF_RATIO: u64 = 0x3fec_cccc_cccc_cccd;

/// The size aimed at, in bytes, if one is.
pub open spec fn target_of(options: SpeedOptions) -> Option<u64> {
    if options.use_target_size {
        Some(round_u64(product(options.target_size_mb, Real { bits: MILLION })))
    } else {
        None
    }
}

/// The size aimed at, in bytes, if one is.
pub fn target_size_bytes(options: &SpeedOptions) -> (r: Option<u64>)
    ensures
        r == target_of(*options),
{
    if options.use_target_size {
        Some(options.target_size_mb.times(Real { bits: MILLION }).round())
    } else {
        None
    }
}

/// The size aimed at is the number of millions of bytes that was given, to the nearest byte and one
/// part in a million of a byte; and none, where none is given.
pub proof fn law_target_size_is_the_one_given(options: SpeedOptions)
    requires
        options.target_size_mb.is_finite(),
        10 * options.target_size_mb.value() >= unit(),
        options.target_size_mb.value() <= 10 * unit(),
    ensures
        !options.use_target_size ==> target_of(options) is None,
        options.use_target_size ==> (target_of(options) matches Some(bytes) && 2_000_000 * apart(
            bytes * unit(),
            options.target_size_mb.value() * 1_000_000,
        ) <= 1_000_001 * unit()),
{
    lemma_million();
    lemma_large();
    lemma_zero();
    lemma_unit_is_large();
    let a = options.target_size_mb;
    let b = Real { bits: MILLION };
    let u = unit();
    let l = pow2(1000) as int;
    let m = a.value();
    assert(m * (1_000_000 * u) == (1_000_000 * m) * u) by (nonlinear_arith);
    assert(1_000_000 * m <= l * u) by (nonlinear_arith)
        requires
            m <= 10 * u,
            l >= 10_000_000,
            u > 0,
    ;
    assert((1_000_000 * m) * u <= l * u * u) by (nonlinear_arith)
        requires
            1_000_000 * m <= l * u,
            u > 0,
    ;
    assert((1_000_000 * m) * u >= 0x10_0000_0000_0000 * u) by (nonlinear_arith)
        requires
            1_000_000 * m >= 0x10_0000_0000_0000,
            u > 0,
    ;
    lemma_product_error(a, b);
    let v = product(a, b).value();
    assert(0x20_0000_0000_0000 * v <= 0x20_0000_0000_0001 * (1_000_000 * m) && 0x1f_ffff_ffff_ffff
        * (1_000_000 * m) <= 0x20_0000_0000_0000 * v) by (nonlinear_arith)
        requires
            0x20_0000_0000_0000 * (v * u) <= 0x20_0000_0000_0001 * ((1_000_000 * m) * u),
            0x1f_ffff_ffff_ffff * ((1_000_000 * m) * u) <= 0x20_0000_0000_0000 * (v * u),
            u > 0,
    ;
    let f = (2 * v + u) / (2 * u);
    assert(2 * (f * u) <= 2 * v + u && 2 * v + u < 2 * (f * u) + 2 * u) by (nonlinear_arith)
        requires
            f == (2 * v + u) / (2 * u),
            u > 0,
    ;
    assert(f <= 20_000_000 && f >= 0) by (nonlinear_arith)
        requires
            2 * (f * u) <= 2 * v + u,
            2 * v + u < 2 * (f * u) + 2 * u,
            v <= 10_000_001 * u,
            v >= 0,
            u > 0,
    ;
}

// ---------------------------------------------------------------------------------------------
// Bit rates
// ---------------------------------------------------------------------------------------------

/// The bit rate of the sound of an export, in thousands of bits a second: none, 128 or 192.
pub open spec fn audio_rate(strip_audio: bool, has_audio: bool, webm_vp9: bool) -> u32 {
    if strip_audio || !has_audio {
        0
    } else if webm_vp9 {
        128
    } else {
        192
    }
}

/// The bit rate of the sound of an export, in thousands of bits a second.
pub fn audio_bitrate_kbps(strip_audio: bool, has_audio: bool, webm_vp9: bool) -> (r: u32)
    ensures
        r == audio_rate(strip_audio, has_audio, webm_vp9),
{
    if strip_audio || !has_audio {
        0
    } else if webm_vp9 {
        128
    } else {
        192
    }
}

/// The bit rate that a size leaves for the picture over a length, in thousands of bits a second.
pub open spec fn picture_rate(target_bytes: u64, output_duration: Real, audio_kbps: u32) -> Real {
    let bits = product(whole(target_bytes as nat), Real { bits: EIGHT });
    let total = quotient(quotient(bits, output_duration), Real { bits: THOUSAND });
    difference(product(total, Real { bits: PAYLOAD_SHARE }), whole(audio_kbps as nat))
}

/// The bit rate of the first pass, or why there is none.
pub open spec fn first_rate(target_bytes: u64, output_duration: Real, audio_kbps: u32) -> Result<
    u32,
    Seq<char>,
> {
    let rate = picture_rate(target_bytes, output_duration, audio_kbps);
    if rate.below(Real { bits: LOWEST_RATE }) {
        Err("MB target too small for "@ + fixed_text(output_duration, 1) + "s."@)
    } else {
        Ok(floor_u32(rate))
    }
}

/// The bit rate of the first pass over a video of this length that aims at a size.
pub fn target_video_bitrate_kbps(target_bytes: u64, output_duration: Real, audio_kbps: u32) -> (r:
    Result<u32, String>)
    ensures
        match r {
            Ok(kbps) => first_rate(target_bytes, output_duration, audio_kbps) == Ok::<
                u32,
                Seq<char>,
            >(kbps),
            Err(e) => first_rate(target_bytes, output_duration, audio_kbps) == Err::<
                u32,
                Seq<char>,
            >(e@),
        },
{
    let total = Real::from_whole(target_bytes).times(Real { bits: EIGHT }).over(
        output_duration,
    ).over(Real { bits: THOUSAND });
    let rate = total.times(Real { bits: PAYLOAD_SHARE }).minus(
        Real::from_whole(audio_kbps as u64),
    );
    if rate.lt(Real { bits: LOWEST_RATE }) {
        Err(cat3("MB target too small for ", fixed(output_duration, 1).as_str(), "s."))
    } else {
        Ok(rate.floor())
    }
}

/// What is said of a size that is too small holds the length of the export, to one decimal.
pub proof fn law_small_size_tells_length(target_bytes: u64, output_duration: Real, audio_kbps: u32)
    requires
        output_duration.is_finite(),
    ensures
        first_rate(target_bytes, output_duration, audio_kbps) matches Err(said) ==> exists|
            n: Seq<char>,
        | #[trigger]
            stands_for(n, output_duration, 1) && said == "MB target too small for "@ + n + "s."@,
{
    law_notation_is_near(output_duration, 1);
    assert(stands_for(fixed_text(output_duration, 1), output_duration, 1));
}

/// A first bit rate is not below the lowest one, if the rate that the size leaves is a number.
pub proof fn law_first_rate_has_a_floor(target_bytes: u64, output_duration: Real, audio_kbps: u32)
    requires
        picture_rate(target_bytes, output_duration, audio_kbps).is_number(),
    ensures
        first_rate(target_bytes, output_duration, audio_kbps) matches Ok(kbps) ==> kbps
            >= MIN_VIDEO_BITRATE_KBPS,
{
    lemma_lowest_rate();
    lemma_zero();
    let rate = picture_rate(target_bytes, output_duration, audio_kbps);
    let v = rate.value();
    let u = unit();
    lemma_constants();
    if v >= 64 * u {
        assert(v / u >= 64) by (nonlinear_arith)
            requires
                v >= 64 * u,
                u > 0,
        ;
    }
}

/// At the first bit rate, picture and sound together fill at most the size aimed at: so many
/// thousands of bits a second over the length are not more than the bits of the size.
pub proof fn law_first_rate_fits_size(target_bytes: u64, output_duration: Real, audio_kbps: u32)
    requires
        output_duration.is_finite(),
        output_duration.value() > 0,
    ensures
        first_rate(target_bytes, output_duration, audio_kbps) matches Ok(kbps) ==> (kbps
            + audio_kbps) * 1000 * output_duration.value() <= 8 * target_bytes * unit(),
{
    if first_rate(target_bytes, output_duration, audio_kbps) is Ok {
        let kbps = first_rate(target_bytes, output_duration, audio_kbps)->Ok_0;
        let d = output_duration.value();
        let u = unit();
        let x = kbps + audio_kbps;
        let bits = 8 * target_bytes * u;
        if 0x800_0000_0000 * d <= bits {
            assert(x * 1000 * d <= 0x800_0000_0000 * d) by (nonlinear_arith)
                requires
                    0 <= x <= 0x1_ffff_ffff,
                    d > 0,
            ;
        } else {
            lemma_rate_chain(target_bytes, output_duration, audio_kbps, kbps);
        }
    }
}

/// The bit pattern of 2 to the power of 68, above all that a rate is computed from.
const RATE_BOUND: u64 = 0x4430_0000_0000_0000;

/// What one rounding step does to a number below the bound.
proof fn lemma_rate_step(n: nat, d: nat)
    requires
        d > 0,
        n <= 0x10_0000_0000_0000_0000 * unit() * d,
    ensures
        rounded(n, d) < INFINITY,
        magnitude_value(rounded(n, d) as nat) <= 0x10_0000_0000_0000_0000 * unit(),
        n == 0 ==> rounded(n, d) == 0,
        n >= unit() * d || magnitude_value(rounded(n, d) as nat) > unit() ==> 1_000_000 * (
        magnitude_value(rounded(n, d) as nat) * d) <= 1_000_001 * n,
{
    lemma_zero();
    lemma_constants();
    lemma_rate_constants();
    let r = rounded(n, d) as nat;
    lemma_rounded_at_most(n, d, RATE_BOUND as nat);
    if r < RATE_BOUND {
        lemma_magnitudes_ordered(r, RATE_BOUND as nat);
    }
    if n == 0 {
        lemma_rounded_at_most(n, d, 0);
    }
    if n >= unit() * d {
        lemma_rounding_is_small(n, d);
    } else {
        lemma_rounded_at_most(n, d, ONE as nat);
        if r < ONE {
            lemma_magnitudes_ordered(r, ONE as nat);
        }
    }
}

/// The exact values that a rate is computed from, each raised by less than a millionth, leave the
/// rate of picture and sound within the size.
proof fn lemma_rate_sums(
    t: int,
    u: int,
    d: int,
    c: int,
    a0: int,
    a1: int,
    a2: int,
    a3: int,
    a4: int,
    x: int,
)
    requires
        u > 0,
        d > 0,
        t >= 0,
        a3 >= 0,
        1_000_000 * a0 <= 1_000_001 * (t * u),
        1_000_000 * a1 <= 1_000_001 * (8 * a0),
        1_000_000 * (a2 * d) <= 1_000_001 * (a1 * u),
        1_000_000 * (a3 * 1000) <= 1_000_001 * a2,
        1_000_000 * (a4 * u) <= 1_000_001 * (a3 * c),
        1_000_000 * (x * u) <= 1_000_001 * a4,
        1000 * c <= 941 * u,
    ensures
        x * 1000 * d <= 8 * t * u,
{
    assert(1_000_000_000 * a4 <= 941_000_941 * a3) by (nonlinear_arith)
        requires
            1_000_000 * (a4 * u) <= 1_000_001 * (a3 * c),
            1000 * c <= 941 * u,
            a3 >= 0,
            u > 0,
    ;
    assert(1_000_000_000 * (x * u) <= 941_003 * a2);
    assert(1_000_000_000 * ((x * u) * d) <= 941_003 * (a2 * d)) by (nonlinear_arith)
        requires
            1_000_000_000 * (x * u) <= 941_003 * a2,
            d > 0,
    ;
    assert(1_000_000_000 * ((x * u) * d) <= 941_004 * (a1 * u));
    assert(1_000_000_000 * (x * d) <= 941_004 * a1) by (nonlinear_arith)
        requires
            1_000_000_000 * ((x * u) * d) <= 941_004 * (a1 * u),
            u > 0,
    ;
    assert(x * 1000 * d == 1000 * (x * d)) by (nonlinear_arith);
    assert(8 * t * u == 8 * (t * u)) by (nonlinear_arith);
    assert(t * u >= 0) by (nonlinear_arith)
        requires
            t >= 0,
            u > 0,
    ;
}

proof fn lemma_rate_chain(target_bytes: u64, output_duration: Real, audio_kbps: u32, kbps: u32)
    requires
        output_duration.is_finite(),
        output_duration.value() > 0,
        8 * target_bytes * unit() < 0x800_0000_0000 * output_duration.value(),
        first_rate(target_bytes, output_duration, audio_kbps) == Ok::<u32, Seq<char>>(kbps),
    ensures
        (kbps + audio_kbps) * 1000 * output_duration.value() <= 8 * target_bytes * unit(),
{
    lemma_zero();
    lemma_constants();
    lemma_lowest_rate();
    lemma_rate_constants();
    lemma_whole_exact(audio_kbps as nat);
    let t = target_bytes as nat;
    let u = unit() as nat;
    let d = output_duration.value() as nat;
    let c = magnitude_value(PAYLOAD_SHARE as nat);
    let audio = audio_kbps as nat * u;

    let w0 = whole(t);
    let a0 = magnitude_value(w0.bits as nat);
    assert(t * u <= 0x1_0000_0000_0000_0000 * u) by (nonlinear_arith)
        requires
            t <= 0x1_0000_0000_0000_0000,
    ;
    assert(t > 0 ==> t * u >= u) by (nonlinear_arith);
    assert(t == 0 ==> t * u == 0) by (nonlinear_arith);
    lemma_rate_step(t * u, 1);
    if t > 0 {
        lemma_rounded_at_least(t * u, 1, ONE as nat);
        if ONE < w0.bits {
            lemma_magnitudes_ordered(ONE as nat, w0.bits as nat);
        }
    }

    let w1 = product(w0, Real { bits: EIGHT });
    let a1 = magnitude_value(w1.bits as nat);
    assert(a0 * (8 * u) == (8 * a0) * u) by (nonlinear_arith);
    assert((8 * a0) * u <= 0x10_0000_0000_0000_0000 * u * u) by (nonlinear_arith)
        requires
            8 * a0 <= 0x10_0000_0000_0000_0000 * u,
    ;
    assert(t > 0 ==> (8 * a0) * u >= u * u) by (nonlinear_arith)
        requires
            t > 0 ==> 8 * a0 >= u,
    ;
    lemma_rate_step(a0 * (8 * u), u);
    assert(1_000_000 * a1 <= 1_000_001 * (8 * a0)) by (nonlinear_arith)
        requires
            1_000_000 * (a1 * u) <= 1_000_001 * ((8 * a0) * u),
            u > 0,
    ;

    assert(8 * target_bytes * unit() == 8 * (t * u)) by (nonlinear_arith)
        requires
            t == target_bytes,
            u == unit(),
    ;
    let w2 = quotient(w1, output_duration);
    let a2 = magnitude_value(w2.bits as nat);
    assert(a1 * u <= 0x10_0000_0000_0000_0000 * u * d) by (nonlinear_arith)
        requires
            a1 <= 0x10_0000_0000_0000_0000 * d,
    ;
    lemma_rate_step(a1 * u, d);

    let w3 = quotient(w2, Real { bits: THOUSAND });
    let a3 = magnitude_value(w3.bits as nat);
    assert(a2 * u <= 0x10_0000_0000_0000_0000 * u * (1000 * u)) by (nonlinear_arith)
        requires
            a2 <= 0x10_0000_0000_0000_0000 * u,
    ;
    lemma_rate_step(a2 * u, 1000 * u);

    let w4 = product(w3, Real { bits: PAYLOAD_SHARE });
    let a4 = magnitude_value(w4.bits as nat);
    assert(a3 * c <= 0x10_0000_0000_0000_0000 * u * u) by (nonlinear_arith)
        requires
            a3 <= 0x10_0000_0000_0000_0000 * u,
            c <= u,
    ;
    lemma_rate_step(a3 * c, u);

    let w5 = difference(w4, whole(audio_kbps as nat));
    assert(w5 == picture_rate(target_bytes, output_duration, audio_kbps));
    assert(a4 - audio > 0);
    lemma_rate_step((a4 - audio) as nat, 1);
    assert(w5.value() >= 64 * u);
    assert(kbps * u <= w5.value()) by (nonlinear_arith)
        requires
            kbps <= w5.value() / u as int,
            u > 0,
    ;
    let x = kbps + audio_kbps;
    assert(x * u == kbps * u + audio_kbps * u) by (nonlinear_arith)
        requires
            x == kbps + audio_kbps,
    ;
    assert(a4 > u);
    assert(a3 > u) by (nonlinear_arith)
        requires
            a4 > u,
            1_000_000 * (a4 * u) <= 1_000_001 * (a3 * c),
            1000 * c <= 941 * u,
            u > 0,
    ;
    assert(1_000_000 * (a3 * 1000) <= 1_000_001 * a2) by (nonlinear_arith)
        requires
            1_000_000 * (a3 * (1000 * u)) <= 1_000_001 * (a2 * u),
            u > 0,
    ;
    lemma_rate_sums(
        t as int,
        u as int,
        d as int,
        c as int,
        a0 as int,
        a1 as int,
        a2 as int,
        a3 as int,
        a4 as int,
        x,
    );
}

proof fn lemma_rate_constants()
    ensures
        magnitude_value(EIGHT as nat) == 8 * unit(),
        magnitude_value(THOUSAND as nat) == 1000 * unit(),
        0 < 1000 * magnitude_value(PAYLOAD_SHARE as nat) <= 941 * unit(),
        magnitude_value(RATE_BOUND as nat) == 0x10_0000_0000_0000_0000 * unit(),
{
    lemma_constants();
    vstd::arithmetic::power2::lemma2_to64();
    vstd::arithmetic::power2::lemma2_to64_rest();
    lemma_parts(EIGHT as nat);
    lemma_parts(THOUSAND as nat);
    lemma_parts(PAYLOAD_SHARE as nat);
    let s = STEP as nat;
    lemma_pow2_adds(1025, 49);
    let p = pow2(1025);
    assert(s * p == 8 * (p * 0x2_0000_0000_0000)) by (nonlinear_arith)
        requires
            s == 0x10_0000_0000_0000,
    ;
    lemma_pow2_adds(1031, 43);
    let p = pow2(1031);
    assert(mantissa(THOUSAND as nat) == 1000 * 0x800_0000_0000);
    assert(1000 * 0x800_0000_0000 * p == 1000 * (p * 0x800_0000_0000)) by (nonlinear_arith);
    lemma_parts(RATE_BOUND as nat);
    lemma_pow2_adds(1074, 16);
    let p = pow2(1074);
    assert(s * (p * 0x1_0000) == 0x10_0000_0000_0000_0000 * p) by (nonlinear_arith)
        requires
            s == 0x10_0000_0000_0000,
    ;
    lemma_pow2_adds(1021, 53);
    lemma_pow2_pos(1021);
    let p = pow2(1021);
    assert(0 < 1000 * (0x1e_147a_e147_ae14 * p) <= 941 * (p * 0x20_0000_0000_0000))
        by (nonlinear_arith)
        requires
            p > 0,
    ;
}

proof fn lemma_lowest_rate()
    ensures
        (Real { bits: LOWEST_RATE }).value() == 64 * unit(),
        (Real { bits: LOWEST_RATE }).is_number(),
{
    lemma_constants();
    vstd::arithmetic::power2::lemma2_to64();
    lemma_parts(LOWEST_RATE as nat);
    lemma_parts(ONE as nat);
    vstd::arithmetic::power2::lemma_pow2_adds(1022, 6);
    let s = STEP as nat;
    let p = vstd::arithmetic::power2::pow2(1022);
    assert(s * (p * 64) == 64 * (s * p)) by (nonlinear_arith);
}

proof fn lemma_payload_share()
    ensures
        (Real { bits: PAYLOAD_SHARE }).is_finite(),
        99_999_999 * (94 * unit()) <= 100_000_000 * (100 * (Real { bits: PAYLOAD_SHARE }).value()),
        100_000_000 * (100 * (Real { bits: PAYLOAD_SHARE }).value()) <= 100_000_001 * (94 * unit()),
{
    vstd::arithmetic::power2::lemma2_to64();
    vstd::arithmetic::power2::lemma2_to64_rest();
    lemma_parts(PAYLOAD_SHARE as nat);
    lemma_pow2_adds(1021, 53);
    lemma_pow2_pos(1021);
    let p = pow2(1021);
    assert(99_999_999 * (94 * (p * 0x20_0000_0000_0000)) <= 100_000_000 * (100 * (
    0x1e_147a_e147_ae14 * p)) && 100_000_000 * (100 * (0x1e_147a_e147_ae14 * p)) <= 100_000_001
        * (94 * (p * 0x20_0000_0000_0000))) by (nonlinear_arith)
        requires
            p > 0,
    ;
}

proof fn lemma_chain(y: int, u: int, d: int, a0: int, a1: int, a2: int, a3: int, a4: int)
    requires
        u > 0,
        d > 0,
        y >= 0,
        0x20_0000_0000_0000 * a0 <= 0x20_0000_0000_0001 * y,
        0x1f_ffff_ffff_ffff * y <= 0x20_0000_0000_0000 * a0,
        0x20_0000_0000_0000 * a1 <= 0x20_0000_0000_0001 * (8 * a0),
        0x1f_ffff_ffff_ffff * (8 * a0) <= 0x20_0000_0000_0000 * a1,
        0x20_0000_0000_0000 * (a2 * d) <= 0x20_0000_0000_0001 * (a1 * u),
        0x1f_ffff_ffff_ffff * (a1 * u) <= 0x20_0000_0000_0000 * (a2 * d),
        0x20_0000_0000_0000 * (1000 * a3) <= 0x20_0000_0000_0001 * a2,
        0x1f_ffff_ffff_ffff * a2 <= 0x20_0000_0000_0000 * (1000 * a3),
        99_999_998 * (94 * a3) <= 100_000_000 * (100 * a4),
        100_000_000 * (100 * a4) <= 100_000_002 * (94 * a3),
    ensures
        100_000_000 * (100_000 * (a4 * d)) <= 100_000_010 * (94 * (8 * (y * u))),
        99_999_990 * (94 * (8 * (y * u))) <= 100_000_000 * (100_000 * (a4 * d)),
{
    assert(99_999_997 * (8 * y) <= 100_000_000 * a1 && 100_000_000 * a1 <= 100_000_003 * (8 * y));
    lemma_times(99_999_997, 8 * y, 100_000_000, a1, u);
    lemma_times(100_000_000, a1, 100_000_003, 8 * y, u);
    assert(99_999_997 * (94 * a2) <= 100_000_000 * (100_000 * a4) && 100_000_000 * (100_000 * a4)
        <= 100_000_003 * (94 * a2));
    lemma_times(99_999_997, 94 * a2, 100_000_000, 100_000 * a4, d);
    lemma_times(100_000_000, 100_000 * a4, 100_000_003, 94 * a2, d);
    assert((8 * y) * u == 8 * (y * u) && (94 * a2) * d == 94 * (a2 * d) && (100_000 * a4) * d
        == 100_000 * (a4 * d)) by (nonlinear_arith);
}

/// What a size and a length leave for picture and sound together.
proof fn lemma_payload(target_bytes: u64, output_duration: Real)
    requires
        target_bytes > 0,
        output_duration.is_finite(),
        output_duration.value() <= 1_000_000_000_000 * unit(),
        1_000_000 * output_duration.value() >= unit(),
    ensures
        ({
            let bits = product(whole(target_bytes as nat), Real { bits: EIGHT });
            let total = quotient(quotient(bits, output_duration), Real { bits: THOUSAND });
            let payload = product(total, Real { bits: PAYLOAD_SHARE });
            let d = output_duration.value();
            let n = 94 * (8 * ((target_bytes * unit()) * unit()));
            &&& payload.is_finite()
            &&& 0 <= payload.value() <= 0x2_0000_0000_0000_0000_0000_0000_0000 * unit()
            &&& 100_000_000 * (100_000 * (payload.value() * d)) <= 100_000_010 * n
            &&& 99_999_990 * n <= 100_000_000 * (100_000 * (payload.value() * d))
        }),
{
    lemma_zero();
    lemma_large();
    lemma_constants();
    lemma_rate_constants();
    lemma_unit_is_large();
    lemma_whole_error(target_bytes as nat);
    let t = target_bytes as int;
    let u = unit();
    let l = pow2(1000) as int;
    let d = output_duration.value();
    let eight = Real { bits: EIGHT };
    let thousand = Real { bits: THOUSAND };
    let share = Real { bits: PAYLOAD_SHARE };
    let c = share.value();
    let y = t * u;
    assert(u <= y <= 0xffff_ffff_ffff_ffff * u) by (nonlinear_arith)
        requires
            y == t * u,
            1 <= t <= 0xffff_ffff_ffff_ffff,
            u > 0,
    ;
    let w0 = whole(target_bytes as nat);
    let a0 = w0.value();
    assert(a0 * (8 * u) == (8 * a0) * u) by (nonlinear_arith);
    assert((8 * a0) * u <= l * u * u) by (nonlinear_arith)
        requires
            8 * a0 <= 0x100_0000_0000_0000_0000 * u,
            l >= 0x1_0000_0000_0000_0000_0000_0000_0000_0000_0000_0000,
            u > 0,
    ;
    assert((8 * a0) * u >= 0x10_0000_0000_0000 * u) by (nonlinear_arith)
        requires
            8 * a0 >= 0x10_0000_0000_0000,
            u > 0,
    ;
    lemma_product_error(w0, eight);
    let w1 = product(w0, eight);
    let a1 = w1.value();
    assert(0x20_0000_0000_0000 * a1 <= 0x20_0000_0000_0001 * (8 * a0) && 0x1f_ffff_ffff_ffff * (8
        * a0) <= 0x20_0000_0000_0000 * a1) by (nonlinear_arith)
        requires
            0x20_0000_0000_0000 * (a1 * u) <= 0x20_0000_0000_0001 * ((8 * a0) * u),
            0x1f_ffff_ffff_ffff * ((8 * a0) * u) <= 0x20_0000_0000_0000 * (a1 * u),
            u > 0,
    ;
    assert(a1 <= l * d) by (nonlinear_arith)
        requires
            a1 <= 0x100_0000_0000_0000_0000 * u,
            1_000_000 * d >= u,
            l >= 0x1_0000_0000_0000_0000_0000_0000_0000_0000_0000_0000,
            u > 0,
    ;
    assert(a1 * u >= 0x10_0000_0000_0000 * d) by (nonlinear_arith)
        requires
            a1 >= u,
            d <= 1_000_000_000_000 * u,
            u >= 0x1_0000_0000_0000_0000_0000_0000_0000_0000_0000_0000,
    ;
    lemma_quotient_error(w1, output_duration);
    let w2 = quotient(w1, output_duration);
    let a2 = w2.value();
    assert(a2 <= 0x1_0000_0000_0000_0000_0000_0000_0000 * u) by (nonlinear_arith)
        requires
            0x20_0000_0000_0000 * (a2 * d) <= 0x20_0000_0000_0001 * (a1 * u),
            a1 <= 0x100_0000_0000_0000_0000 * u,
            1_000_000 * d >= u,
            u > 0,
            d > 0,
    ;
    assert(0x1000_0000_0000 * a2 >= u) by (nonlinear_arith)
        requires
            0x1f_ffff_ffff_ffff * (a1 * u) <= 0x20_0000_0000_0000 * (a2 * d),
            a1 >= u,
            d <= 1_000_000_000_000 * u,
            u > 0,
            d > 0,
    ;
    assert(a2 <= l * (1000 * u)) by (nonlinear_arith)
        requires
            a2 <= 0x1_0000_0000_0000_0000_0000_0000_0000 * u,
            l >= 0x1_0000_0000_0000_0000_0000_0000_0000_0000_0000_0000,
            u > 0,
    ;
    assert(a2 * u >= 0x10_0000_0000_0000 * (1000 * u)) by (nonlinear_arith)
        requires
            a2 >= 0x10_0000_0000_0000 * 1000,
            u > 0,
    ;
    lemma_quotient_error(w2, thousand);
    let w3 = quotient(w2, thousand);
    let a3 = w3.value();
    assert(0x20_0000_0000_0000 * (1000 * a3) <= 0x20_0000_0000_0001 * a2 && 0x1f_ffff_ffff_ffff * a2
        <= 0x20_0000_0000_0000 * (1000 * a3)) by (nonlinear_arith)
        requires
            0x20_0000_0000_0000 * (a3 * (1000 * u)) <= 0x20_0000_0000_0001 * (a2 * u),
            0x1f_ffff_ffff_ffff * (a2 * u) <= 0x20_0000_0000_0000 * (a3 * (1000 * u)),
            u > 0,
    ;
    lemma_payload_share();
    assert(a3 * c <= l * u * u) by (nonlinear_arith)
        requires
            0 <= a3 <= 0x1_0000_0000_0000_0000_0000_0000_0000 * u,
            0 <= c <= u,
            l >= 0x1_0000_0000_0000_0000_0000_0000_0000_0000_0000_0000,
            u > 0,
    ;
    assert(a3 * c >= 0x10_0000_0000_0000 * u) by (nonlinear_arith)
        requires
            a3 >= 0x20_0000_0000_0000,
            2 * c >= u,
            u > 0,
    ;
    lemma_product_error(w3, share);
    let w4 = product(w3, share);
    let a4 = w4.value();
    assert(99_999_998 * (94 * a3) <= 100_000_000 * (100 * a4) && 100_000_000 * (100 * a4)
        <= 100_000_002 * (94 * a3)) by (nonlinear_arith)
        requires
            0x20_0000_0000_0000 * (a4 * u) <= 0x20_0000_0000_0001 * (a3 * c),
            0x1f_ffff_ffff_ffff * (a3 * c) <= 0x20_0000_0000_0000 * (a4 * u),
            99_999_999 * (94 * u) <= 100_000_000 * (100 * c),
            100_000_000 * (100 * c) <= 100_000_001 * (94 * u),
            a3 >= 0,
            u > 0,
    ;
    lemma_chain(y, u, d, a0, a1, a2, a3, a4);
}

/// Over a length from a millionth of a second to a million of millions of seconds: at the first bit rate,
/// picture and sound together fill 0.94 of the size aimed at, but for what rounding down to a whole number
/// takes away, and to one part in a million; and a rate is refused only where those 0.94 leave less than
/// the lowest rate for the picture.
pub proof fn law_first_rate_fills_size(target_bytes: u64, output_duration: Real, audio_kbps: u32)
    requires
        target_bytes > 0,
        output_duration.is_finite(),
        output_duration.value() <= 1_000_000_000_000 * unit(),
        1_000_000 * output_duration.value() >= unit(),
    ensures
        ({
            let length = output_duration.value();
            let share = 94 * (8 * (target_bytes * unit()));
            match first_rate(target_bytes, output_duration, audio_kbps) {
                Ok(kbps) => {
                    &&& kbps >= 64
                    &&& 1_000_000 * (100_000 * ((kbps + audio_kbps) * length)) <= 1_000_001 * share
                    &&& kbps < u32::MAX ==> 999_999 * share <= 1_000_000 * (100_000 * ((kbps + 1
                        + audio_kbps) * length))
                },
                Err(_) => 999_999 * share <= 1_000_000 * (100_000 * ((64 + audio_kbps) * length)),
            }
        }),
{
    lemma_zero();
    lemma_large();
    lemma_constants();
    lemma_lowest_rate();
    lemma_unit_is_large();
    lemma_whole_exact(audio_kbps as nat);
    lemma_payload(target_bytes, output_duration);
    let u = unit();
    let l = pow2(1000) as int;
    let d = output_duration.value();
    let bits = product(whole(target_bytes as nat), Real { bits: EIGHT });
    let total = quotient(quotient(bits, output_duration), Real { bits: THOUSAND });
    let payload = product(total, Real { bits: PAYLOAD_SHARE });
    let a = payload.value();
    let audio = whole(audio_kbps as nat);
    let b = audio.value();
    let most = Real { bits: LARGE };
    assert(b <= l * u) by (nonlinear_arith)
        requires
            b == audio_kbps * u,
            0 <= audio_kbps <= l,
            u > 0,
    ;
    assert(a <= l * u) by (nonlinear_arith)
        requires
            a <= 0x2_0000_0000_0000_0000_0000_0000_0000 * u,
            l >= 0x1_0000_0000_0000_0000_0000_0000_0000_0000_0000_0000,
            u > 0,
    ;
    assert(b >= 0) by (nonlinear_arith)
        requires
            b == audio_kbps * u,
            0 <= audio_kbps,
            u > 0,
    ;
    lemma_difference_error(payload, audio, most);
    let rate = picture_rate(target_bytes, output_duration, audio_kbps);
    assert(rate == difference(payload, audio));
    let v = rate.value();
    let n = 94 * (8 * (target_bytes * u));
    let nu = 94 * (8 * ((target_bytes * u) * u));
    assert(nu == n * u) by (nonlinear_arith)
        requires
            n == 94 * (8 * (target_bytes * u)),
            nu == 94 * (8 * ((target_bytes * u) * u)),
    ;
    match first_rate(target_bytes, output_duration, audio_kbps) {
        Ok(kbps) => {
            let k = kbps as int;
            let f = v / u;
            assert(f * u <= v < f * u + u && f >= 64) by (nonlinear_arith)
                requires
                    f == v / u,
                    v >= 64 * u,
                    u > 0,
            ;
            assert(k <= f);
            let x = k + audio_kbps;
            assert(x * u <= v + b) by (nonlinear_arith)
                requires
                    x == k + audio_kbps,
                    b == audio_kbps * u,
                    k <= f,
                    f * u <= v,
                    u > 0,
            ;
            assert(x * u * 100_000_000 <= 100_000_001 * a);
            lemma_rate_bound_up(x, u, d, a, n);
            if kbps < u32::MAX {
                assert((x + 1) * u >= v + b) by (nonlinear_arith)
                    requires
                        x == k + audio_kbps,
                        b == audio_kbps * u,
                        k == f,
                        v <= f * u + u,
                        u > 0,
                ;
                lemma_rate_bound_down(x + 1, u, d, a, n);
            }
        },
        Err(_) => {
            let x = 64 + audio_kbps;
            assert(x * u == 64 * u + b) by (nonlinear_arith)
                requires
                    x == 64 + audio_kbps,
                    b == audio_kbps * u,
            ;
            lemma_rate_bound_down(x as int, u, d, a, n);
        },
    }
}

proof fn lemma_rate_bound_up(x: int, u: int, d: int, a: int, n: int)
    requires
        u > 0,
        d > 0,
        n >= 0,
        100_000_000 * (x * u) <= 100_000_001 * a,
        100_000_000 * (100_000 * (a * d)) <= 100_000_010 * (n * u),
    ensures
        1_000_000 * (100_000 * (x * d)) <= 1_000_001 * n,
{
    lemma_times(100_000_000, x * u, 100_000_001, a, d);
    assert((x * u) * d == (x * d) * u) by (nonlinear_arith);
    let y = x * d;
    assert(n * u >= 0) by (nonlinear_arith)
        requires
            n >= 0,
            u > 0,
    ;
    assert(1_000_000 * (100_000 * (y * u)) <= 1_000_001 * (n * u));
    assert(1_000_000 * (100_000 * y) <= 1_000_001 * n) by (nonlinear_arith)
        requires
            1_000_000 * (100_000 * (y * u)) <= 1_000_001 * (n * u),
            u > 0,
    ;
}

proof fn lemma_rate_bound_down(x: int, u: int, d: int, a: int, n: int)
    requires
        u > 0,
        d > 0,
        n >= 0,
        99_999_999 * a <= 100_000_000 * (x * u),
        99_999_990 * (n * u) <= 100_000_000 * (100_000 * (a * d)),
    ensures
        999_999 * n <= 1_000_000 * (100_000 * (x * d)),
{
    lemma_times(99_999_999, a, 100_000_000, x * u, d);
    assert((x * u) * d == (x * d) * u) by (nonlinear_arith);
    let y = x * d;
    assert(n * u >= 0) by (nonlinear_arith)
        requires
            n >= 0,
            u > 0,
    ;
    assert(999_999 * (n * u) <= 1_000_000 * (100_000 * (y * u)));
    assert(999_999 * n <= 1_000_000 * (100_000 * y)) by (nonlinear_arith)
        requires
            999_999 * (n * u) <= 1_000_000 * (100_000 * (y * u)),
            u > 0,
    ;
}

/// The bit rate scaled by what a file exceeds the size aimed at.
pub open spec fn scaled_rate(target_bytes: u64, size: u64, kbps: u32) -> u32 {
    let ratio = product(
        quotient(whole(target_bytes as nat), whole(size as nat)),
        Real { bits: RETRY_SHARE },
    );
    let factor = ratio.clamped(
        Real { bits: LEAST_RATE_FACTOR },
        Real { bits: LARGEST_RATE_FACTOR },
    );
    floor_u32(product(whole(kbps as nat), factor))
}

/// The number from `low` to `high` that is nearest to a number.
pub open spec fn between(n: int, low: int, high: int) -> int {
    if n < low {
        low
    } else if n > high {
        high
    } else {
        n
    }
}

proof fn lemma_retry_constants()
    ensures
        (Real { bits: RETRY_SHARE }).is_finite(),
        (Real { bits: LEAST_RATE_FACTOR }).is_finite(),
        (Real { bits: LARGEST_RATE_FACTOR }).is_finite(),
        99_999_999 * (92 * unit()) <= 100_000_000 * (100 * (Real { bits: RETRY_SHARE }).value()),
        100_000_000 * (100 * (Real { bits: RETRY_SHARE }).value()) <= 100_000_001 * (92 * unit()),
        99_999_999 * (20 * unit()) <= 100_000_000 * (100 * (Real {
            bits: LEAST_RATE_FACTOR,
        }).value()),
        100_000_000 * (100 * (Real { bits: LEAST_RATE_FACTOR }).value()) <= 100_000_001 * (20
            * unit()),
        99_999_999 * (95 * unit()) <= 100_000_000 * (100 * (Real {
            bits: LARGEST_RATE_FACTOR,
        }).value()),
        100_000_000 * (100 * (Real { bits: LARGEST_RATE_FACTOR }).value()) <= 100_000_001 * (95
            * unit()),
{
    vstd::arithmetic::power2::lemma2_to64();
    vstd::arithmetic::power2::lemma2_to64_rest();
    lemma_parts(RETRY_SHARE as nat);
    lemma_parts(LEAST_RATE_FACTOR as nat);
    lemma_parts(LARGEST_RATE_FACTOR as nat);
    lemma_pow2_adds(1021, 53);
    lemma_pow2_adds(1019, 55);
    lemma_pow2_pos(1021);
    lemma_pow2_pos(1019);
    let p = pow2(1021);
    assert(99_999_999 * (92 * (p * 0x20_0000_0000_0000)) <= 100_000_000 * (100 * (
    0x1d_70a3_d70a_3d71 * p)) && 100_000_000 * (100 * (0x1d_70a3_d70a_3d71 * p)) <= 100_000_001
        * (92 * (p * 0x20_0000_0000_0000))) by (nonlinear_arith)
        requires
            p > 0,
    ;
    assert(99_999_999 * (95 * (p * 0x20_0000_0000_0000)) <= 100_000_000 * (100 * (
    0x1e_6666_6666_6666 * p)) && 100_000_000 * (100 * (0x1e_6666_6666_6666 * p)) <= 100_000_001
        * (95 * (p * 0x20_0000_0000_0000))) by (nonlinear_arith)
        requires
            p > 0,
    ;
    let p = pow2(1019);
    assert(99_999_999 * (20 * (p * 0x80_0000_0000_0000)) <= 100_000_000 * (100 * (
    0x19_9999_9999_999a * p)) && 100_000_000 * (100 * (0x19_9999_9999_999a * p)) <= 100_000_001
        * (20 * (p * 0x80_0000_0000_0000))) by (nonlinear_arith)
        requires
            p > 0,
    ;
}

/// What clamping does to a number that is known to about one part in ten millions.
proof fn lemma_clamp_near(w: int, a: int, b: int, c: int, lo: int, hi: int, v: int)
    requires
        a >= 0,
        0 <= b <= c,
        99_999_990 * a <= 100_000_000 * (100 * w),
        100_000_000 * (100 * w) <= 100_000_010 * a,
        99_999_999 * b <= 100_000_000 * (100 * lo),
        100_000_000 * (100 * lo) <= 100_000_001 * b,
        99_999_999 * c <= 100_000_000 * (100 * hi),
        100_000_000 * (100 * hi) <= 100_000_001 * c,
        v == between(w, lo, hi),
    ensures
        99_999_970 * between(a, b, c) <= 100_000_000 * (100 * v),
        100_000_000 * (100 * v) <= 100_000_030 * between(a, b, c),
{
}

/// Clamping before and after a multiplication comes to the same.
proof fn lemma_between_times(w: int, lo: int, hi: int, s: int)
    requires
        s > 0,
        lo <= hi,
    ensures
        between(w, lo, hi) * s == between(w * s, lo * s, hi * s),
{
    assert(w < lo ==> w * s < lo * s) by (nonlinear_arith)
        requires
            s > 0,
    ;
    assert(w >= lo ==> w * s >= lo * s) by (nonlinear_arith)
        requires
            s > 0,
    ;
    assert(w > hi ==> w * s > hi * s) by (nonlinear_arith)
        requires
            s > 0,
    ;
    assert(w <= hi ==> w * s <= hi * s) by (nonlinear_arith)
        requires
            s > 0,
    ;
    assert(lo * s <= hi * s) by (nonlinear_arith)
        requires
            s > 0,
            lo <= hi,
    ;
}

/// A factor between a fifth and one, times a whole number, without its fraction.
proof fn lemma_floor_of_product(k: u32, factor: Real)
    requires
        factor.is_finite(),
        !factor.is_negative(),
        10 * factor.value() >= unit(),
        100 * factor.value() <= 97 * unit(),
    ensures
        ({
            let r = floor_u32(product(whole(k as nat), factor)) as int;
            &&& 100_000_000 * (r * unit()) <= 100_000_001 * (k * factor.value())
            &&& 99_999_999 * (k * factor.value()) <= 100_000_000 * ((r + 1) * unit())
        }),
{
    lemma_whole_exact(k as nat);
    lemma_large();
    lemma_zero();
    lemma_unit_is_large();
    let a = whole(k as nat);
    let u = unit();
    let l = pow2(1000) as int;
    let f = factor.value();
    let ku = k * u;
    assert(ku * f <= l * u * u) by (nonlinear_arith)
        requires
            ku == k * u,
            0 <= k <= l,
            0 <= f <= u,
    ;
    assert(k > 0 ==> ku * f >= 0x10_0000_0000_0000 * u) by (nonlinear_arith)
        requires
            ku == k * u,
            k >= 0,
            10 * f >= u,
            u >= 0x1_0000_0000_0000_0000_0000_0000_0000_0000_0000_0000,
    ;
    assert(k == 0 ==> ku * f == 0) by (nonlinear_arith)
        requires
            ku == k * u,
    ;
    lemma_product_error(a, factor);
    let p = product(a, factor).value();
    let kf = k * f;
    assert(ku * f == kf * u) by (nonlinear_arith)
        requires
            ku == k * u,
            kf == k * f,
    ;
    assert(0x20_0000_0000_0000 * p <= 0x20_0000_0000_0001 * kf && 0x1f_ffff_ffff_ffff * kf
        <= 0x20_0000_0000_0000 * p) by (nonlinear_arith)
        requires
            0x20_0000_0000_0000 * (p * u) <= 0x20_0000_0000_0001 * (kf * u),
            0x1f_ffff_ffff_ffff * (kf * u) <= 0x20_0000_0000_0000 * (p * u),
            u > 0,
    ;
    assert(kf >= 0 && 100 * kf <= 97 * ku) by (nonlinear_arith)
        requires
            kf == k * f,
            ku == k * u,
            100 * f <= 97 * u,
            f >= 0,
            k >= 0,
    ;
    let r = p / u;
    assert(r * u <= p < r * u + u && r >= 0) by (nonlinear_arith)
        requires
            r == p / u,
            u > 0,
            p >= 0,
    ;
    assert(r <= k) by (nonlinear_arith)
        requires
            r * u <= p,
            p <= k * u,
            u > 0,
    ;
    assert((r + 1) * u == r * u + u) by (nonlinear_arith);
}

/// The next rate is the rate times 0.92 times the size aimed at over the size that came out, without its
/// fraction, to one part in a million; but not less than a fifth and not more than 0.95 of the rate.
pub proof fn law_retry_rate_follows_sizes(target_bytes: u64, size: u64, kbps: u32)
    requires
        size > 0,
    ensures
        ({
            let r = scaled_rate(target_bytes, size, kbps);
            let share = between(92 * target_bytes, 20 * size, 95 * size);
            &&& 1_000_000 * (r * (100 * size)) <= 1_000_001 * (kbps * share)
            &&& 999_999 * (kbps * share) <= 1_000_000 * ((r + 1) * (100 * size))
        }),
{
    lemma_ratio_near(target_bytes as nat, size as nat);
    lemma_retry_constants();
    lemma_large();
    lemma_zero();
    lemma_unit_is_large();
    let u = unit();
    let l = pow2(1000) as int;
    let t = target_bytes as int;
    let s = size as int;
    let k = kbps as int;
    let ratio = quotient(whole(target_bytes as nat), whole(size as nat));
    let share = Real { bits: RETRY_SHARE };
    let low = Real { bits: LEAST_RATE_FACTOR };
    let high = Real { bits: LARGEST_RATE_FACTOR };
    let q = ratio.value();
    let c = share.value();
    let x = q * s;
    let y = t * u;
    let zu = s * u;
    assert(q * c <= l * u * u) by (nonlinear_arith)
        requires
            0 <= q <= 0x2_0000_0000_0000_0000 * u,
            0 <= c <= u,
            l >= 0x2_0000_0000_0000_0000,
            u > 0,
    ;
    assert(q == 0 ==> q * c == 0) by (nonlinear_arith);
    if t > 0 {
        assert(q * c >= 0x10_0000_0000_0000 * u) by (nonlinear_arith)
            requires
                q >= 0x100_0000_0000_0000,
                2 * c >= u,
                u > 0,
        ;
    } else {
        assert(y == 0) by (nonlinear_arith)
            requires
                y == t * u,
                t == 0,
        ;
        assert(q == 0) by (nonlinear_arith)
            requires
                100_000_000 * (q * s) <= 0,
                s > 0,
                q >= 0,
        ;
    }
    lemma_product_error(ratio, share);
    let scaled = product(ratio, share);
    let w = scaled.value() * s;
    let rho = scaled.value();
    // w * u is x * c, and c is 0.92 * u.
    assert(w * u == (rho * u) * s && x * c == (q * c) * s) by (nonlinear_arith)
        requires
            w == rho * s,
            x == q * s,
    ;
    assert(0x20_0000_0000_0000 * (w * u) <= 0x20_0000_0000_0001 * (x * c) && 0x1f_ffff_ffff_ffff * (
    x * c) <= 0x20_0000_0000_0000 * (w * u)) by (nonlinear_arith)
        requires
            w * u == (rho * u) * s,
            x * c == (q * c) * s,
            0x20_0000_0000_0000 * (rho * u) <= 0x20_0000_0000_0001 * (q * c),
            0x1f_ffff_ffff_ffff * (q * c) <= 0x20_0000_0000_0000 * (rho * u),
            s > 0,
    ;
    assert(x >= 0) by (nonlinear_arith)
        requires
            x == q * s,
            q >= 0,
            s > 0,
    ;
    assert(99_999_999 * (92 * (x * u)) <= 100_000_000 * (100 * (x * c)) && 100_000_000 * (100 * (x
        * c)) <= 100_000_001 * (92 * (x * u))) by (nonlinear_arith)
        requires
            99_999_999 * (92 * u) <= 100_000_000 * (100 * c),
            100_000_000 * (100 * c) <= 100_000_001 * (92 * u),
            x >= 0,
    ;
    assert(100_000_000 * (100 * w) <= 100_000_003 * (92 * x) && 99_999_997 * (92 * x)
        <= 100_000_000 * (100 * w)) by (nonlinear_arith)
        requires
            0x20_0000_0000_0000 * (w * u) <= 0x20_0000_0000_0001 * (x * c),
            0x1f_ffff_ffff_ffff * (x * c) <= 0x20_0000_0000_0000 * (w * u),
            99_999_999 * (92 * (x * u)) <= 100_000_000 * (100 * (x * c)),
            100_000_000 * (100 * (x * c)) <= 100_000_001 * (92 * (x * u)),
            u > 0,
            x >= 0,
    ;
    let factor = scaled.clamped(low, high);
    let phi = factor.value();
    let v = phi * s;
    lemma_between_times(rho, low.value(), high.value(), s);
    lemma_times(99_999_999, 20 * u, 100_000_000, 100 * low.value(), s);
    lemma_times(100_000_000, 100 * low.value(), 100_000_001, 20 * u, s);
    lemma_times(99_999_999, 95 * u, 100_000_000, 100 * high.value(), s);
    lemma_times(100_000_000, 100 * high.value(), 100_000_001, 95 * u, s);
    assert(y >= 0 && zu >= 0) by (nonlinear_arith)
        requires
            y == t * u,
            zu == s * u,
            t >= 0,
            s >= 0,
            u > 0,
    ;
    assert((20 * u) * s == 20 * zu && (95 * u) * s == 95 * zu && (100 * low.value()) * s == 100 * (
    low.value() * s) && (100 * high.value()) * s == 100 * (high.value() * s)) by (nonlinear_arith)
        requires
            zu == s * u,
    ;
    let n = between(92 * y, 20 * zu, 95 * zu);
    lemma_clamp_near(w, 92 * y, 20 * zu, 95 * zu, low.value() * s, high.value() * s, v);
    let g = between(92 * target_bytes, 20 * size, 95 * size);
    lemma_between_times(92 * t, 20 * s, 95 * s, u);
    assert((92 * t) * u == 92 * y && (20 * s) * u == 20 * zu && (95 * s) * u == 95 * zu)
        by (nonlinear_arith)
        requires
            y == t * u,
            zu == s * u,
    ;
    assert(n == g * u);
    lemma_floor_of_product(kbps, factor);
    let r = scaled_rate(target_bytes, size, kbps) as int;
    // r * u is k * phi, and phi * s is n.
    assert(1_000_000 * (r * (100 * s)) <= 1_000_001 * (k * g)) by (nonlinear_arith)
        requires
            100_000_000 * (r * u) <= 100_000_001 * (k * phi),
            100_000_000 * (100 * v) <= 100_000_030 * n,
            v == phi * s,
            n == g * u,
            k >= 0,
            s > 0,
            u > 0,
            phi >= 0,
            g >= 0,
    ;
    assert(999_999 * (k * g) <= 1_000_000 * ((r + 1) * (100 * s))) by (nonlinear_arith)
        requires
            99_999_999 * (k * phi) <= 100_000_000 * ((r + 1) * u),
            99_999_970 * n <= 100_000_000 * (100 * v),
            v == phi * s,
            n == g * u,
            k >= 0,
            s > 0,
            u > 0,
            phi >= 0,
            g >= 0,
    ;
}

fn scale_rate(target_bytes: u64, size: u64, kbps: u32) -> (r: u32)
    ensures
        r == scaled_rate(target_bytes, size, kbps),
{
    let ratio = Real::from_whole(target_bytes).over(Real::from_whole(size)).times(
        Real { bits: RETRY_SHARE },
    );
    let low = Real { bits: LEAST_RATE_FACTOR };
    let high = Real { bits: LARGEST_RATE_FACTOR };
    proof {
        lemma_magnitudes_ordered(low.bits as nat, high.bits as nat);
    }
    Real::from_whole(kbps as u64).times(ratio.clamp(low, high)).floor()
}

/// The bit rate after `current`, which was too high: the scaled one, or one step down where
/// scaling leads no lower.
pub open spec fn lower_bitrate(current: u32, scaled: u32) -> u32 {
    if scaled < current {
        scaled
    } else if current >= BITRATE_STEP {
        (current - BITRATE_STEP) as u32
    } else {
        0
    }
}

fn next_bitrate(current: u32, scaled: u32) -> (r: u32)
    ensures
        r == lower_bitrate(current, scaled),
{
    if scaled >= current {
        current.saturating_sub(BITRATE_STEP)
    } else {
        scaled
    }
}

/// After a file that is too large, either the next pass aims at the same size, at a rate that is the last
/// one times 0.92 times the size aimed at over the size that came out, to one part in a million, within
/// a fifth and 0.95 of the last one; or four passes were made; or that rate is below the lowest one.
pub proof fn law_next_pass_follows_sizes(p: VideoPasses, size: u64)
    requires
        size > p.target_bytes,
        p.kbps > 0,
        p.attempt < u32::MAX,
    ensures
        ({
            let (outcome, next) = after_video_pass(p, size);
            let share = between(92 * p.target_bytes, 20 * size, 95 * size);
            match outcome {
                PassOutcome::Done => false,
                PassOutcome::Again => {
                    &&& p.attempt < 4
                    &&& next.attempt == p.attempt + 1
                    &&& next.target_bytes == p.target_bytes
                    &&& next.kbps >= 64
                    &&& 1_000_000 * (next.kbps * (100 * size)) <= 1_000_001 * (p.kbps * share)
                    &&& 999_999 * (p.kbps * share) <= 1_000_000 * ((next.kbps + 1) * (100 * size))
                },
                PassOutcome::GiveUp => {
                    &&& next == p
                    &&& p.attempt >= 4 || 999_999 * (p.kbps * share) <= 1_000_000 * (64 * (100
                        * size))
                },
            }
        }),
{
    law_retry_rate_follows_sizes(p.target_bytes, size, p.kbps);
    let r = scaled_rate(p.target_bytes, size, p.kbps) as int;
    let k = p.kbps as int;
    let s = size as int;
    let share = between(92 * p.target_bytes, 20 * size, 95 * size);
    assert(r < k) by (nonlinear_arith)
        requires
            1_000_000 * (r * (100 * s)) <= 1_000_001 * (k * share),
            share <= 95 * s,
            k >= 1,
            s >= 1,
    ;
    if r < 64 {
        assert((r + 1) * (100 * s) <= 64 * (100 * s)) by (nonlinear_arith)
            requires
                r + 1 <= 64,
                s >= 1,
        ;
    }
}

/// The next bit rate is lower, unless the last one was zero.
pub proof fn law_bitrate_falls(current: u32, scaled: u32)
    requires
        current > 0,
    ensures
        lower_bitrate(current, scaled) < current,
{
}

/// The next bit rate is the scaled one where that is lower, and otherwise 32 below the current one, down
/// to zero.
pub proof fn law_bitrate_steps_down(current: u32, scaled: u32)
    ensures
        ({
            let next = lower_bitrate(current, scaled);
            &&& scaled < current ==> next == scaled
            &&& scaled >= current >= 32 ==> next + 32 == current
            &&& scaled >= current && current < 32 ==> next == 0
        }),
{
}

// ---------------------------------------------------------------------------------------------
// Passes over a video
// ---------------------------------------------------------------------------------------------

/// What is to be done once a pass has made a file.
#[derive(Clone, Copy, Debug, PartialEq, Eq, Structural)]
pub enum PassOutcome {
    /// The file is small enough: keep it.
    Done,
    /// The file is too large: remove it, and make the next pass.
    Again,
    /// The file is too large, and nothing is left to try: remove it, and give up.
    GiveUp,
}

/// What is said where nothing is left to try.
pub fn size_floor_message() -> (r: String)
    ensures
        r@ == "Shorten clip; size floor hit."@,
{
    "Shorten clip; size floor hit.".to_string()
}

/// The passes over a video that aim at a size.
#[derive(Clone, Copy, Debug, PartialEq, Eq, Structural)]
pub struct VideoPasses {
    /// The size aimed at, in bytes.
    pub target_bytes: u64,
    /// The number of the pass, from one.
    pub attempt: u32,
    /// The bit rate of the pass, in thousands of bits a second.
    pub kbps: u32,
}

/// What follows a pass that made a file of `size` bytes, and the passes from then on.
pub open spec fn after_video_pass(p: VideoPasses, size: u64) -> (PassOutcome, VideoPasses) {
    if size <= p.target_bytes {
        (PassOutcome::Done, p)
    } else {
        let kbps = lower_bitrate(p.kbps, scaled_rate(p.target_bytes, size, p.kbps));
        if kbps < MIN_VIDEO_BITRATE_KBPS || p.attempt >= VIDEO_TARGET_ATTEMPTS {
            (PassOutcome::GiveUp, p)
        } else {
            (PassOutcome::Again, VideoPasses { attempt: (p.attempt + 1) as u32, kbps, ..p })
        }
    }
}

/// What is said before a pass other than the first.
pub open spec fn rate_message(kbps: nat, target_bytes: nat) -> Seq<char> {
    "Retrying size target at "@ + decimal(kbps) + " kbps video bitrate for "@ + megabytes_text(
        target_bytes,
    ) + "."@
}

/// What is said before a pass other than the first holds its rate and the size aimed at.
pub proof fn law_retry_message_holds_rate(kbps: nat, target_bytes: nat)
    ensures
        exists|n: Seq<char>| #[trigger]
            is_number_text(n, kbps) && rate_message(kbps, target_bytes)
                == "Retrying size target at "@ + n + " kbps video bitrate for "@ + megabytes_text(
                target_bytes,
            ) + "."@,
{
    lemma_decimal_digits(kbps);
    lemma_decimal_value(kbps);
    assert(is_number_text(decimal(kbps), kbps));
}

impl VideoPasses {
    /// The first pass.
    pub fn new(target_bytes: u64, kbps: u32) -> (p: VideoPasses)
        ensures
            p == (VideoPasses { target_bytes, attempt: 1, kbps }),
    {
        VideoPasses { target_bytes, attempt: 1, kbps }
    }

    /// What is said before a pass other than the first.
    pub fn retry_message(&self) -> (r: Option<String>)
        ensures
            match r {
                Some(m) => self.attempt > 1 && m@ == rate_message(
                    self.kbps as nat,
                    self.target_bytes as nat,
                ),
                None => self.attempt <= 1,
            },
    {
        if self.attempt > 1 {
            Some(
                cat5(
                    "Retrying size target at ",
                    number(self.kbps as u64).as_str(),
                    " kbps video bitrate for ",
                    format_mb(self.target_bytes).as_str(),
                    ".",
                ),
            )
        } else {
            None
        }
    }

    /// What follows a pass that made a file of `size` bytes.
    pub fn after_pass(&mut self, size: u64) -> (r: PassOutcome)
        ensures
            (r, *final(self)) == after_video_pass(*old(self), size),
    {
        if size <= self.target_bytes {
            return PassOutcome::Done;
        }
        let scaled = scale_rate(self.target_bytes, size, self.kbps);
        let kbps = next_bitrate(self.kbps, scaled);
        if kbps < MIN_VIDEO_BITRATE_KBPS || self.attempt >= VIDEO_TARGET_ATTEMPTS {
            return PassOutcome::GiveUp;
        }
        self.kbps = kbps;
        self.attempt = self.attempt + 1;
        PassOutcome::Again
    }
}

/// The passes after some that each made a file of a size, and each led to another one.
pub open spec fn video_passes_run(p: VideoPasses, sizes: Seq<u64>) -> Option<VideoPasses>
    decreases sizes.len(),
{
    if sizes.len() == 0 {
        Some(p)
    } else {
        match video_passes_run(p, sizes.drop_last()) {
            Some(q) => {
                let (outcome, next) = after_video_pass(q, sizes.last());
                if outcome == PassOutcome::Again {
                    Some(next)
                } else {
                    None
                }
            },
            None => None,
        }
    }
}

/// However large the files turn out, at most four passes are made, all at the lowest bit rate or
/// above it, each after the first at a lower rate than the first, and all for the same size.
pub proof fn law_video_passes_end(target_bytes: u64, kbps: u32, sizes: Seq<u64>)
    requires
        kbps >= MIN_VIDEO_BITRATE_KBPS,
    ensures
        ({
            let first = VideoPasses { target_bytes, attempt: 1, kbps };
            match video_passes_run(first, sizes) {
                Some(p) => {
                    &&& p.target_bytes == target_bytes
                    &&& p.attempt == sizes.len() + 1
                    &&& p.attempt <= VIDEO_TARGET_ATTEMPTS
                    &&& MIN_VIDEO_BITRATE_KBPS <= p.kbps <= kbps
                    &&& sizes.len() > 0 ==> p.kbps < kbps
                },
                None => true,
            }
        }),
        sizes.len() >= VIDEO_TARGET_ATTEMPTS ==> video_passes_run(
            VideoPasses { target_bytes, attempt: 1, kbps },
            sizes,
        ) is None,
    decreases sizes.len(),
{
    if sizes.len() > 0 {
        law_video_passes_end(target_bytes, kbps, sizes.drop_last());
    }
}

/// A file is kept exactly where it is not larger than the size aimed at.
pub proof fn law_kept_video_meets_size(p: VideoPasses, size: u64)
    ensures
        after_video_pass(p, size).0 == PassOutcome::Done <==> size <= p.target_bytes,
{
}

// ---------------------------------------------------------------------------------------------
// Passes over an animation
// ---------------------------------------------------------------------------------------------

/// The frame rate after `current`: the scaled one, not below the lowest, and below the current
/// one where that is above the lowest.
pub open spec fn lower_fps(current: u32, scaled: u32) -> u32 {
    let next = if scaled < MIN_GIF_FPS {
        MIN_GIF_FPS
    } else {
        scaled
    };
    if next >= current && current > MIN_GIF_FPS {
        (current - 1) as u32
    } else {
        next
    }
}

/// The length of a side after `current`: the scaled one, rounded down to an even number, not
/// below the lowest, and one step below the current one where that is above the lowest and
/// scaling leads no lower.
pub open spec fn lower_resolution(current: u32, scaled: u32) -> u32 {
    let even = (scaled / 2 * 2) as u32;
    let next = if even < MIN_GIF_RESOLUTION {
        MIN_GIF_RESOLUTION
    } else {
        even
    };
    if next >= current && current > MIN_GIF_RESOLUTION {
        let step = if current < MIN_GIF_RESOLUTION + RESOLUTION_STEP {
            MIN_GIF_RESOLUTION
        } else {
            (current - RESOLUTION_STEP) as u32
        };
        (step / 2 * 2) as u32
    } else {
        next
    }
}

/// Where scaling leads no lower, a side that is above the lowest one becomes 80 shorter, and a frame rate
/// that is above the lowest one becomes one less; but neither falls below the lowest one, and the side is
/// an even number.
pub proof fn law_gif_settings_step_down(current: u32, scaled: u32)
    ensures
        ({
            let side = lower_resolution(current, scaled);
            &&& side % 2 == 0 && side >= 240
            &&& scaled < current && scaled >= 240 ==> scaled - 1 <= side <= scaled
            &&& scaled < 240 ==> side == 240
            &&& scaled > current >= 320 ==> current - 81 <= side <= current - 80
            &&& scaled > current && current < 320 && current > 240 ==> side == 240
        }),
        ({
            let fps = lower_fps(current, scaled);
            &&& fps >= 5
            &&& scaled < current && scaled >= 5 ==> fps == scaled
            &&& scaled < 5 <= current ==> fps == 5
            &&& scaled >= current > 5 ==> fps + 1 == current
        }),
{
}

/// The ratio of the size aimed at to the size that came out, as far as it counts.
pub open spec fn gif_ratio_of(target_bytes: u64, actual_bytes: u64) -> Real {
    quotient(whole(target_bytes as nat), whole(actual_bytes as nat)).clamped(
        Real { bits: LEAST_GIF_RATIO },
        Real { bits: LARGEST_GIF_RATIO },
    )
}

/// The ratio of the size aimed at to the size that came out, as far as it counts.
pub fn gif_ratio(target_bytes: u64, actual_bytes: u64) -> (r: Real)
    ensures
        r == gif_ratio_of(target_bytes, actual_bytes),
        r.is_number() ==> 0 < r.value() < unit(),
{
    let low = Real { bits: LEAST_GIF_RATIO };
    let high = Real { bits: LARGEST_GIF_RATIO };
    proof {
        lemma_constants();
        lemma_zero();
        lemma_magnitudes_ordered(0, low.bits as nat);
        lemma_magnitudes_ordered(low.bits as nat, high.bits as nat);
        lemma_magnitudes_ordered(high.bits as nat, ONE as nat);
    }
    Real::from_whole(target_bytes).over(Real::from_whole(actual_bytes)).clamp(low, high)
}

proof fn lemma_gif_constants()
    ensures
        (Real { bits: LEAST_GIF_RATIO }).is_finite(),
        (Real { bits: LARGEST_GIF_RATIO }).is_finite(),
        99_999_999 * (18 * unit()) <= 100_000_000 * (100 * (Real { bits: LEAST_GIF_RATIO }).value()),
        100_000_000 * (100 * (Real { bits: LEAST_GIF_RATIO }).value()) <= 100_000_001 * (18
            * unit()),
        99_999_999 * (90 * unit()) <= 100_000_000 * (100 * (Real {
            bits: LARGEST_GIF_RATIO,
        }).value()),
        100_000_000 * (100 * (Real { bits: LARGEST_GIF_RATIO }).value()) <= 100_000_001 * (90
            * unit()),
{
    vstd::arithmetic::power2::lemma2_to64();
    vstd::arithmetic::power2::lemma2_to64_rest();
    lemma_parts(LEAST_GIF_RATIO as nat);
    lemma_parts(LARGEST_GIF_RATIO as nat);
    lemma_pow2_adds(1021, 53);
    lemma_pow2_adds(1019, 55);
    lemma_pow2_pos(1021);
    lemma_pow2_pos(1019);
    let p = pow2(1021);
    assert(99_999_999 * (90 * (p * 0x20_0000_0000_0000)) <= 100_000_000 * (100 * (
    0x1c_cccc_cccc_cccd * p)) && 100_000_000 * (100 * (0x1c_cccc_cccc_cccd * p)) <= 100_000_001
        * (90 * (p * 0x20_0000_0000_0000))) by (nonlinear_arith)
        requires
            p > 0,
    ;
    let p = pow2(1019);
    assert(99_999_999 * (18 * (p * 0x80_0000_0000_0000)) <= 100_000_000 * (100 * (
    0x17_0a3d_70a3_d70a * p)) && 100_000_000 * (100 * (0x17_0a3d_70a3_d70a * p)) <= 100_000_001
        * (18 * (p * 0x80_0000_0000_0000))) by (nonlinear_arith)
        requires
            p > 0,
    ;
}

/// The ratio that counts is the size aimed at over the size that came out, to one part in a million, but
/// not less than 0.18 and not more than 0.9.
pub proof fn law_gif_ratio_follows_sizes(target_bytes: u64, actual_bytes: u64)
    requires
        actual_bytes > 0,
    ensures
        ({
            let ratio = gif_ratio_of(target_bytes, actual_bytes);
            let share = between(100 * target_bytes, 18 * actual_bytes, 90 * actual_bytes);
            &&& ratio.is_finite()
            &&& 1_000_000 * (100 * (ratio.value() * actual_bytes)) <= 1_000_001 * (share * unit())
            &&& 999_999 * (share * unit()) <= 1_000_000 * (100 * (ratio.value() * actual_bytes))
        }),
{
    lemma_ratio_near(target_bytes as nat, actual_bytes as nat);
    lemma_gif_constants();
    lemma_large();
    let u = unit();
    let t = target_bytes as int;
    let s = actual_bytes as int;
    let low = (Real { bits: LEAST_GIF_RATIO }).value();
    let high = (Real { bits: LARGEST_GIF_RATIO }).value();
    let q = quotient(whole(target_bytes as nat), whole(actual_bytes as nat)).value();
    let ratio = gif_ratio_of(target_bytes, actual_bytes);
    assert(ratio.value() == between(q, low, high));
    lemma_between_times(q, low, high, s);
    lemma_times(99_999_999, 18 * u, 100_000_000, 100 * low, s);
    lemma_times(100_000_000, 100 * low, 100_000_001, 18 * u, s);
    lemma_times(99_999_999, 90 * u, 100_000_000, 100 * high, s);
    lemma_times(100_000_000, 100 * high, 100_000_001, 90 * u, s);
    let y = t * u;
    let zu = s * u;
    assert(y >= 0 && zu >= 0) by (nonlinear_arith)
        requires
            y == t * u,
            zu == s * u,
            t >= 0,
            s >= 0,
            u > 0,
    ;
    assert((18 * u) * s == 18 * zu && (90 * u) * s == 90 * zu && (100 * low) * s == 100 * (low * s)
        && (100 * high) * s == 100 * (high * s)) by (nonlinear_arith)
        requires
            zu == s * u,
    ;
    lemma_clamp_near(q * s, 100 * y, 18 * zu, 90 * zu, low * s, high * s, ratio.value() * s);
    lemma_between_times(100 * t, 18 * s, 90 * s, u);
    assert((100 * t) * u == 100 * y && (18 * s) * u == 18 * zu && (90 * s) * u == 90 * zu)
        by (nonlinear_arith)
        requires
            y == t * u,
            zu == s * u,
    ;
}

/// The side and the frame rate of the next pass, if they differ from the current ones. Both are
/// scaled by `factor`, without their fractions.
pub open spec fn lower_gif_settings(factor: Real, resolution: u32, fps: u32) -> Option<(u32, u32)> {
    let next = (
        lower_resolution(resolution, floor_u32(product(whole(resolution as nat), factor))),
        lower_fps(fps, floor_u32(product(whole(fps as nat), factor))),
    );
    if next == (resolution, fps) {
        None
    } else {
        Some(next)
    }
}

/// The side and the frame rate of the next pass. `factor` is the ratio of the sizes to the power of
/// 0.45.
pub fn next_gif_settings(factor: Real, current_resolution: u32, current_fps: u32) -> (r: Option<
    (u32, u32),
>)
    ensures
        r == lower_gif_settings(factor, current_resolution, current_fps),
{
    let scaled_fps = Real::from_whole(current_fps as u64).times(factor).floor();
    let scaled_resolution = Real::from_whole(current_resolution as u64).times(factor).floor();
    let mut next_fps: u32 = if scaled_fps < MIN_GIF_FPS {
        MIN_GIF_FPS
    } else {
        scaled_fps
    };
    let even: u32 = scaled_resolution / 2 * 2;
    let mut next_resolution: u32 = if even < MIN_GIF_RESOLUTION {
        MIN_GIF_RESOLUTION
    } else {
        even
    };
    if next_fps >= current_fps && current_fps > MIN_GIF_FPS {
        next_fps = current_fps - 1;
    }
    if next_resolution >= current_resolution && current_resolution > MIN_GIF_RESOLUTION {
        let step: u32 = current_resolution.saturating_sub(RESOLUTION_STEP);
        let kept: u32 = if step < MIN_GIF_RESOLUTION {
            MIN_GIF_RESOLUTION
        } else {
            step
        };
        next_resolution = kept / 2 * 2;
    }
    if next_fps == current_fps && next_resolution == current_resolution {
        None
    } else {
        Some((next_resolution, next_fps))
    }
}

/// With a factor between a tenth and 0.97, the next settings are the current ones times the factor, to one
/// part in a hundred millions: the side is the even number below that, and the frame rate the whole number
/// below that; but not below the lowest ones.
pub proof fn law_gif_settings_follow_factor(factor: Real, resolution: u32, fps: u32)
    requires
        factor.is_finite(),
        !factor.is_negative(),
        10 * factor.value() >= unit(),
        100 * factor.value() <= 97 * unit(),
    ensures
        ({
            let (r, f) = match lower_gif_settings(factor, resolution, fps) {
                Some(next) => next,
                None => (resolution, fps),
            };
            let x = resolution * factor.value();
            let y = fps * factor.value();
            &&& r >= 240 && r % 2 == 0
            &&& 99_999_999 * x <= 100_000_000 * ((r + 2) * unit())
            &&& r > 240 ==> 100_000_000 * (r * unit()) <= 100_000_001 * x
            &&& f >= 5
            &&& 99_999_999 * y <= 100_000_000 * ((f + 1) * unit())
            &&& f > 5 ==> 100_000_000 * (f * unit()) <= 100_000_001 * y
        }),
{
    lemma_constants();
    lemma_floor_of_product(resolution, factor);
    lemma_floor_of_product(fps, factor);
    let u = unit();
    let v = factor.value();
    let a = floor_u32(product(whole(resolution as nat), factor)) as int;
    let b = floor_u32(product(whole(fps as nat), factor)) as int;
    let c = resolution as int;
    let d = fps as int;
    assert(c > 0 ==> a < c) by (nonlinear_arith)
        requires
            100_000_000 * (a * u) <= 100_000_001 * (c * v),
            100 * v <= 97 * u,
            u > 0,
            c >= 0,
    ;
    assert(d > 0 ==> b < d) by (nonlinear_arith)
        requires
            100_000_000 * (b * u) <= 100_000_001 * (d * v),
            100 * v <= 97 * u,
            u > 0,
            d >= 0,
    ;
    let (r, f) = match lower_gif_settings(factor, resolution, fps) {
        Some(next) => next,
        None => (resolution, fps),
    };
    assert(r == lower_resolution(resolution, a as u32) && f == lower_fps(fps, b as u32));
    assert(a + 1 <= r + 2);
    assert(b + 1 <= f + 1);
    assert((a + 1) * u <= (r + 2) * u && (b + 1) * u <= (f + 1) * u) by (nonlinear_arith)
        requires
            a + 1 <= r + 2,
            b + 1 <= f + 1,
            u > 0,
    ;
    if r > 240 {
        assert(r * u <= a * u) by (nonlinear_arith)
            requires
                r <= a,
                u > 0,
        ;
    }
    if f > 5 {
        assert(f * u <= b * u) by (nonlinear_arith)
            requires
                f <= b,
                u > 0,
        ;
    }
}

/// Whether a factor is a ratio to the power of 0.45, that is of nine twentieths, give or take about
/// one part in fifty: its twentieth power is the ninth power of the ratio, within a factor of one and
/// a half. The power of what is not a number is not a number.
pub open spec fn is_gif_factor(ratio: Real, factor: Real) -> bool {
    let exact = pow(ratio.value(), 9) * pow(unit(), 11);
    let power = pow(factor.value(), 20);
    if ratio.is_number() {
        &&& factor.is_number()
        &&& factor.value() >= 0
        &&& 2 * power <= 3 * exact
        &&& 2 * exact <= 3 * power
    } else {
        !factor.is_number()
    }
}

proof fn lemma_power_grows(a: int, b: int, n: nat)
    requires
        0 <= a <= b,
    ensures
        0 <= pow(a, n) <= pow(b, n),
    decreases n,
{
    reveal(pow);
    if n > 0 {
        lemma_power_grows(a, b, (n - 1) as nat);
        let x = pow(a, (n - 1) as nat);
        let y = pow(b, (n - 1) as nat);
        assert(0 <= a * x <= b * y) by (nonlinear_arith)
            requires
                0 <= a <= b,
                0 <= x <= y,
        ;
    }
}

proof fn lemma_gif_ratio(target_bytes: u64, actual_bytes: u64)
    ensures
        ({
            let ratio = gif_ratio_of(target_bytes, actual_bytes);
            ratio.is_number() ==> 0 <= ratio.value() && 100 * ratio.value() <= 91 * unit()
        }),
{
    lemma_zero();
    lemma_constants();
    vstd::arithmetic::power2::lemma2_to64();
    vstd::arithmetic::power2::lemma2_to64_rest();
    lemma_magnitudes_ordered(0, LEAST_GIF_RATIO as nat);
    lemma_magnitudes_ordered(LEAST_GIF_RATIO as nat, LARGEST_GIF_RATIO as nat);
    lemma_parts(LARGEST_GIF_RATIO as nat);
    lemma_pow2_adds(1021, 53);
    let p = pow2(1021);
    assert(100 * (0x1c_cccc_cccc_cccd * p) <= 91 * (p * 0x20_0000_0000_0000)) by (nonlinear_arith);
}

/// The factor for a file of any size, and for any size aimed at, is at most one.
pub proof fn law_gif_factor_is_at_most_one(target_bytes: u64, actual_bytes: u64, factor: Real)
    requires
        is_gif_factor(gif_ratio_of(target_bytes, actual_bytes), factor),
    ensures
        factor.is_number() ==> factor.value() <= unit(),
{
    lemma_constants();
    lemma_gif_ratio(target_bytes, actual_bytes);
    let ratio = gif_ratio_of(target_bytes, actual_bytes);
    let u = unit();
    let r = ratio.value();
    let f = factor.value();
    if factor.is_number() && f > u {
        lemma_power_grows(u, f, 20);
        lemma_power_grows(100 * r, 91 * u, 9);
        lemma_pow_adds(u, 9, 11);
        lemma_pow_distributes(100, r, 9);
        lemma_pow_distributes(91, u, 9);
        lemma_pow_positive(u, 9);
        lemma_pow_positive(u, 11);
        assert(pow(100, 9) == 1_000_000_000_000_000_000 && pow(91, 9) == 427_929_800_129_788_411)
            by {
            reveal_with_fuel(pow, 10);
        }
        let a = pow(u, 9);
        let b = pow(u, 11);
        let c = pow(r, 9);
        assert(2 * a <= 3 * c) by (nonlinear_arith)
            requires
                2 * (a * b) <= 3 * (c * b),
                b > 0,
        ;
    }
}

/// Whatever the factor, and from settings that are not below the lowest: of the side and the frame
/// rate, each falls unless it is the lowest, none falls below the lowest, and the side is even.
pub proof fn law_gif_settings_above_the_floor_fall(factor: Real, resolution: u32, fps: u32)
    requires
        resolution >= MIN_GIF_RESOLUTION,
        fps >= MIN_GIF_FPS,
    ensures
        match lower_gif_settings(factor, resolution, fps) {
            Some((r, f)) => {
                &&& MIN_GIF_RESOLUTION <= r
                &&& MIN_GIF_FPS <= f
                &&& resolution > MIN_GIF_RESOLUTION ==> r < resolution
                &&& fps > MIN_GIF_FPS ==> f < fps
                &&& r % 2 == 0
            },
            None => resolution == MIN_GIF_RESOLUTION && fps == MIN_GIF_FPS,
        },
{
}

proof fn lemma_gif_settings_fall(factor: Real, resolution: u32, fps: u32)
    requires
        resolution >= MIN_GIF_RESOLUTION,
        fps >= MIN_GIF_FPS,
        factor.is_number() ==> factor.value() <= unit(),
    ensures
        match lower_gif_settings(factor, resolution, fps) {
            Some((r, f)) => {
                &&& MIN_GIF_RESOLUTION <= r <= resolution
                &&& MIN_GIF_FPS <= f <= fps
                &&& resolution > MIN_GIF_RESOLUTION ==> r < resolution
                &&& fps > MIN_GIF_FPS ==> f < fps
                &&& resolution > MIN_GIF_RESOLUTION || fps > MIN_GIF_FPS
                &&& r % 2 == 0
            },
            None => resolution == MIN_GIF_RESOLUTION && fps == MIN_GIF_FPS,
        },
{
    lemma_scaled_at_most(resolution, factor);
    lemma_scaled_at_most(fps, factor);
}

/// For a file of any size, and any size aimed at, and from settings that are not below the lowest: of
/// the side and the frame rate, each falls unless it is the lowest, neither rises or falls below the
/// lowest, and the side is even; and there are next settings unless both are the lowest.
pub proof fn law_gif_settings_fall(
    target_bytes: u64,
    actual_bytes: u64,
    factor: Real,
    resolution: u32,
    fps: u32,
)
    requires
        is_gif_factor(gif_ratio_of(target_bytes, actual_bytes), factor),
        resolution >= MIN_GIF_RESOLUTION,
        fps >= MIN_GIF_FPS,
    ensures
        match lower_gif_settings(factor, resolution, fps) {
            Some((r, f)) => {
                &&& MIN_GIF_RESOLUTION <= r <= resolution
                &&& MIN_GIF_FPS <= f <= fps
                &&& resolution > MIN_GIF_RESOLUTION ==> r < resolution
                &&& fps > MIN_GIF_FPS ==> f < fps
                &&& resolution > MIN_GIF_RESOLUTION || fps > MIN_GIF_FPS
                &&& r % 2 == 0
            },
            None => resolution == MIN_GIF_RESOLUTION && fps == MIN_GIF_FPS,
        },
{
    law_gif_factor_is_at_most_one(target_bytes, actual_bytes, factor);
    lemma_gif_settings_fall(factor, resolution, fps);
}

/// A size aimed at, the size that came out, and the factor that they lead to.
pub ghost struct GifTry {
    pub target_bytes: u64,
    pub actual_bytes: u64,
    pub factor: Real,
}

/// Whether the factor is the one that the sizes lead to.
pub open spec fn is_gif_try(t: GifTry) -> bool {
    is_gif_factor(gif_ratio_of(t.target_bytes, t.actual_bytes), t.factor)
}

/// The settings after some tries, each made with what the one before led to; none, where one of them
/// leads no lower.
pub open spec fn gif_settings_run(resolution: u32, fps: u32, tries: Seq<GifTry>) -> Option<
    (u32, u32),
>
    decreases tries.len(),
{
    if tries.len() == 0 {
        Some((resolution, fps))
    } else {
        match gif_settings_run(resolution, fps, tries.drop_last()) {
            Some((r, f)) => lower_gif_settings(tries.last().factor, r, f),
            None => None,
        }
    }
}

/// Whatever sizes come out, and from settings that are not below the lowest, the settings fall for a
/// limited number of times only: no more often than the side and the frame rate are above the lowest,
/// whichever is further.
pub proof fn law_gif_settings_run_out(resolution: u32, fps: u32, tries: Seq<GifTry>)
    requires
        resolution >= MIN_GIF_RESOLUTION,
        fps >= MIN_GIF_FPS,
        forall|i: int| 0 <= i < tries.len() ==> is_gif_try(#[trigger] tries[i]),
    ensures
        gif_settings_run(resolution, fps, tries) matches Some((r, f)) ==> {
            &&& MIN_GIF_RESOLUTION <= r <= resolution
            &&& MIN_GIF_FPS <= f <= fps
            &&& r == MIN_GIF_RESOLUTION || r + tries.len() <= resolution
            &&& f == MIN_GIF_FPS || f + tries.len() <= fps
        },
        tries.len() > resolution - MIN_GIF_RESOLUTION && tries.len() > fps - MIN_GIF_FPS
            ==> gif_settings_run(resolution, fps, tries) is None,
    decreases tries.len(),
{
    if tries.len() > 0 {
        let before = tries.drop_last();
        assert forall|i: int| 0 <= i < before.len() implies is_gif_try(#[trigger] before[i]) by {
            assert(before[i] == tries[i]);
        }
        law_gif_settings_run_out(resolution, fps, before);
        let last = tries[tries.len() - 1];
        assert(is_gif_try(last));
        if let Some((r, f)) = gif_settings_run(resolution, fps, before) {
            law_gif_settings_fall(last.target_bytes, last.actual_bytes, last.factor, r, f);
        }
    }
}

/// The passes over an animation that aim at a size.
#[derive(Clone, Copy, Debug, PartialEq, Eq, Structural)]
pub struct GifPasses {
    /// The size aimed at, in bytes.
    pub target_bytes: u64,
    /// The number of the pass, from one.
    pub attempt: u32,
    /// What the shorter side is limited to from the second pass on.
    pub resolution: u32,
    /// The frame rate.
    pub fps: u32,
}

/// What follows a pass that made a file of `size` bytes, and the passes from then on.
pub open spec fn after_gif_pass(p: GifPasses, size: u64, factor: Real) -> (PassOutcome, GifPasses) {
    if size <= p.target_bytes {
        (PassOutcome::Done, p)
    } else {
        match lower_gif_settings(factor, p.resolution, p.fps) {
            Some((resolution, fps)) => if p.attempt >= GIF_TARGET_ATTEMPTS {
                (PassOutcome::GiveUp, p)
            } else {
                (
                    PassOutcome::Again,
                    GifPasses { attempt: (p.attempt + 1) as u32, resolution, fps, ..p },
                )
            },
            None => (PassOutcome::GiveUp, p),
        }
    }
}

/// What is said before a pass other than the first.
pub open spec fn settings_message(fps: nat, side: nat, target_bytes: nat) -> Seq<char> {
    "Retrying GIF size target at "@ + decimal(fps) + " fps and "@ + decimal(side) + "p for "@
        + megabytes_text(target_bytes) + "."@
}

/// What is said before a pass other than the first holds its frame rate, its side and the size aimed at.
pub proof fn law_retry_message_holds_settings(fps: nat, side: nat, target_bytes: nat)
    ensures
        exists|n: Seq<char>, m: Seq<char>|
            #![trigger is_number_text(n, fps), is_number_text(m, side)]
            is_number_text(n, fps) && is_number_text(m, side) && settings_message(
                fps,
                side,
                target_bytes,
            ) == "Retrying GIF size target at "@ + n + " fps and "@ + m + "p for "@
                + megabytes_text(target_bytes) + "."@,
{
    lemma_decimal_digits(fps);
    lemma_decimal_value(fps);
    lemma_decimal_digits(side);
    lemma_decimal_value(side);
    assert(is_number_text(decimal(fps), fps) && is_number_text(decimal(side), side));
}

/// What the shorter side of a pass is limited to: nothing in the first one.
pub open spec fn side_of(p: GifPasses) -> Option<u32> {
    if p.attempt > 1 {
        Some(p.resolution)
    } else {
        None
    }
}

impl GifPasses {
    /// The first pass.
    pub fn new(target_bytes: u64, resolution: u32, fps: u32) -> (p: GifPasses)
        ensures
            p == (GifPasses { target_bytes, attempt: 1, resolution, fps }),
    {
        GifPasses { target_bytes, attempt: 1, resolution, fps }
    }

    /// What the shorter side of a pass other than the first is limited to.
    pub fn side(&self) -> (r: Option<u32>)
        ensures
            r == side_of(*self),
    {
        if self.attempt > 1 {
            Some(self.resolution)
        } else {
            None
        }
    }

    /// What is said before a pass other than the first.
    pub fn retry_message(&self) -> (r: Option<String>)
        ensures
            match r {
                Some(m) => self.attempt > 1 && m@ == settings_message(
                    self.fps as nat,
                    self.resolution as nat,
                    self.target_bytes as nat,
                ),
                None => self.attempt <= 1,
            },
    {
        if self.attempt > 1 {
            let mut s = cat5(
                "Retrying GIF size target at ",
                number(self.fps as u64).as_str(),
                " fps and ",
                number(self.resolution as u64).as_str(),
                "p for ",
            );
            s.append(format_mb(self.target_bytes).as_str());
            s.append(".");
            Some(s)
        } else {
            None
        }
    }

    /// What follows a pass that made a file of `size` bytes. `factor` is the ratio of the sizes to
    /// the power of 0.45.
    pub fn after_pass(&mut self, size: u64, factor: Real) -> (r: PassOutcome)
        ensures
            (r, *final(self)) == after_gif_pass(*old(self), size, factor),
    {
        if size <= self.target_bytes {
            return PassOutcome::Done;
        }
        match next_gif_settings(factor, self.resolution, self.fps) {
            Some((resolution, fps)) => {
                if self.attempt >= GIF_TARGET_ATTEMPTS {
                    return PassOutcome::GiveUp;
                }
                self.resolution = resolution;
                self.fps = fps;
                self.attempt = self.attempt + 1;
                PassOutcome::Again
            },
            None => PassOutcome::GiveUp,
        }
    }
}

/// The passes after some that each made a file of a size, and each led to another one. Each entry
/// is a size and a factor.
pub open spec fn gif_passes_run(p: GifPasses, sizes: Seq<(u64, Real)>) -> Option<GifPasses>
    decreases sizes.len(),
{
    if sizes.len() == 0 {
        Some(p)
    } else {
        match gif_passes_run(p, sizes.drop_last()) {
            Some(q) => {
                let (outcome, next) = after_gif_pass(q, sizes.last().0, sizes.last().1);
                if outcome == PassOutcome::Again {
                    Some(next)
                } else {
                    None
                }
            },
            None => None,
        }
    }
}

/// However large the files turn out, at most eight passes are made, all for the same size.
pub proof fn law_gif_passes_end(p: GifPasses, sizes: Seq<(u64, Real)>)
    requires
        p.attempt == 1,
    ensures
        match gif_passes_run(p, sizes) {
            Some(q) => {
                &&& q.target_bytes == p.target_bytes
                &&& q.attempt == sizes.len() + 1
                &&& q.attempt <= GIF_TARGET_ATTEMPTS
            },
            None => true,
        },
        sizes.len() >= GIF_TARGET_ATTEMPTS ==> gif_passes_run(p, sizes) is None,
    decreases sizes.len(),
{
    if sizes.len() > 0 {
        law_gif_passes_end(p, sizes.drop_last());
    }
}

/// However large the files turn out: each pass after the first is made at a lower frame rate than the
/// first, unless that was the lowest; and its shorter side is limited, to less than the side that the
/// passes set out from, unless that was the lowest.
pub proof fn law_gif_passes_are_limited(p: GifPasses, sizes: Seq<(u64, Real)>)
    requires
        p.attempt == 1,
        p.resolution >= MIN_GIF_RESOLUTION,
        p.fps >= MIN_GIF_FPS,
        forall|i: int|
            0 <= i < sizes.len() ==> is_gif_factor(
                gif_ratio_of(p.target_bytes, (#[trigger] sizes[i]).0),
                sizes[i].1,
            ),
    ensures
        gif_passes_run(p, sizes) matches Some(q) ==> {
            &&& MIN_GIF_RESOLUTION <= q.resolution <= p.resolution
            &&& MIN_GIF_FPS <= q.fps <= p.fps
            &&& sizes.len() > 0 && p.fps > MIN_GIF_FPS ==> q.fps < p.fps
            &&& sizes.len() > 0 ==> side_of(q) == Some(q.resolution)
            &&& sizes.len() > 0 && p.resolution > MIN_GIF_RESOLUTION ==> q.resolution
                < p.resolution
        },
    decreases sizes.len(),
{
    if sizes.len() > 0 {
        let before = sizes.drop_last();
        assert forall|i: int| 0 <= i < before.len() implies is_gif_factor(
            gif_ratio_of(p.target_bytes, (#[trigger] before[i]).0),
            before[i].1,
        ) by {
            assert(before[i] == sizes[i]);
        }
        law_gif_passes_are_limited(p, before);
        law_gif_passes_end(p, before);
        law_gif_passes_end(p, sizes);
        let last = sizes[sizes.len() - 1];
        if let Some(q) = gif_passes_run(p, before) {
            law_gif_settings_fall(p.target_bytes, last.0, last.1, q.resolution, q.fps);
        }
    }
}

/// After an animation that is too large, either the next pass aims at the same size, with the settings that
/// the factor leads to; or eight passes were made; or the factor leads to no other settings.
pub proof fn law_next_gif_pass_follows_factor(p: GifPasses, size: u64, factor: Real)
    requires
        size > p.target_bytes,
        p.attempt < u32::MAX,
    ensures
        ({
            let (outcome, next) = after_gif_pass(p, size, factor);
            match outcome {
                PassOutcome::Done => false,
                PassOutcome::Again => {
                    &&& p.attempt < 8
                    &&& next.attempt == p.attempt + 1
                    &&& next.target_bytes == p.target_bytes
                    &&& lower_gif_settings(factor, p.resolution, p.fps) == Some(
                        (next.resolution, next.fps),
                    )
                    &&& side_of(next) == Some(next.resolution) || p.attempt == 0
                },
                PassOutcome::GiveUp => {
                    &&& next == p
                    &&& p.attempt >= 8 || lower_gif_settings(factor, p.resolution, p.fps) is None
                },
            }
        }),
{
}

/// A file is kept exactly where it is not larger than the size aimed at.
pub proof fn law_kept_gif_meets_size(p: GifPasses, size: u64, factor: Real)
    ensures
        after_gif_pass(p, size, factor).0 == PassOutcome::Done <==> size <= p.target_bytes,
{
}

// ---------------------------------------------------------------------------------------------
// Plans
// ---------------------------------------------------------------------------------------------

/// How an export is made.
#[derive(Clone, Copy, Debug, PartialEq, Eq, Structural)]
pub enum ExportPlan {
    /// An animation, in one pass at a frame rate.
    GifOnce { fps: u32 },
    /// An animation of a size, in several passes.
    GifSized(GifPasses),
    /// A video, in one pass.
    VideoOnce,
    /// A video of a size, in several passes.
    VideoSized(VideoPasses),
}

/// What a plan is made from.
#[derive(Clone, Copy, Debug, PartialEq, Eq, Structural)]
pub struct ExportRequest {
    /// What is exported.
    pub kind: OutputKind,
    /// The length of the export, in seconds.
    pub output_duration: Real,
    /// The length of the shorter side of a video; of an animation, what that side is lowered from
    /// where a size calls for it.
    pub output_resolution: u32,
    /// The size aimed at, in bytes, if one is.
    pub target_bytes: Option<u64>,
    /// The bit rate of the sound, in thousands of bits a second.
    pub audio_kbps: u32,
}

/// What the plan for a part of a video is made from. The export is as long as the part divided by
/// the speed.
pub open spec fn request_of(options: SpeedOptions, clip: VideoClip, has_audio: bool) -> ExportRequest {
    let kind = kind_of(options.output_format@);
    ExportRequest {
        kind,
        output_duration: quotient(clip.duration, clip.speed),
        output_resolution: reduced(options.output_resolution, options.dimension_reduction),
        target_bytes: target_of(options),
        audio_kbps: audio_rate(options.strip_audio, has_audio, kind is Webm),
    }
}

/// What the plan for a part of a video is made from. The export is as long as the part divided by
/// the speed.
pub fn export_request(options: &SpeedOptions, clip: VideoClip, has_audio: bool) -> (r:
    ExportRequest)
    ensures
        r == request_of(*options, clip, has_audio),
        r.kind == kind_of(options.output_format@),
        r.output_duration == quotient(clip.duration, clip.speed),
        r.output_resolution == reduced(options.output_resolution, options.dimension_reduction),
        r.target_bytes == target_of(*options),
        r.audio_kbps == audio_rate(options.strip_audio, has_audio, r.kind is Webm),
{
    let kind = output_kind(options.output_format.as_str());
    ExportRequest {
        kind,
        output_duration: clip.duration.over(clip.speed),
        output_resolution: reduced_output_resolution(
            options.output_resolution,
            options.dimension_reduction,
        ),
        target_bytes: target_size_bytes(options),
        audio_kbps: audio_bitrate_kbps(options.strip_audio, has_audio, kind == OutputKind::Webm),
    }
}

/// The length of an export times its speed is the length of the part, to one part in two to the power of
/// 53; its kind is the one that the format names, in whatever case of letters; and it has sound exactly
/// where there is some and it is not to be stripped. The speed has to be from one to a million, and the
/// part from a millionth of a second to a million of millions of seconds long.
pub proof fn law_request_describes_export(options: SpeedOptions, clip: VideoClip, has_audio: bool)
    requires
        clip.duration.is_finite(),
        clip.speed.is_finite(),
        unit() <= clip.speed.value() <= 1_000_000 * unit(),
        clip.duration.value() <= 1_000_000_000_000 * unit(),
        1_000_000 * clip.duration.value() >= unit(),
    ensures
        ({
            let r = request_of(options, clip, has_audio);
            let reached = r.output_duration.value() * clip.speed.value();
            let wanted = clip.duration.value() * unit();
            let format = lowered(options.output_format@);
            &&& r.output_duration.is_finite()
            &&& 0x20_0000_0000_0000 * reached <= 0x20_0000_0000_0001 * wanted
            &&& 0x1f_ffff_ffff_ffff * wanted <= 0x20_0000_0000_0000 * reached
            &&& r.kind is Gif <==> format == "github-gif"@
            &&& r.kind is Webm <==> format == "webm-vp9"@
            &&& r.target_bytes is Some <==> options.use_target_size
            &&& r.audio_kbps > 0 <==> has_audio && !options.strip_audio
        }),
{
    reveal_strlit("github-gif");
    reveal_strlit("webm-vp9");
    assert(lowered("github-gif"@) =~= "github-gif"@);
    assert(lowered("webm-vp9"@) =~= "webm-vp9"@);
    assert("github-gif"@.len() == 10 && "webm-vp9"@.len() == 8);
    lemma_large();
    lemma_zero();
    lemma_unit_is_large();
    let u = unit();
    let l = pow2(1000) as int;
    let c = clip.duration.value();
    let s = clip.speed.value();
    assert(c <= l * s) by (nonlinear_arith)
        requires
            c <= 1_000_000_000_000 * u,
            s >= u,
            l >= 1_000_000_000_000,
            u > 0,
    ;
    assert(c * u >= 0x10_0000_0000_0000 * s) by (nonlinear_arith)
        requires
            1_000_000 * c >= u,
            s <= 1_000_000 * u,
            u >= 0x1_0000_0000_0000_0000_0000_0000_0000_0000_0000_0000,
    ;
    lemma_quotient_error(clip.duration, clip.speed);
}

/// A video that aims at no size is made in one pass. One that aims at a size starts with a first pass for
/// that size, at the rate that the size, the length and the sound leave; and is refused exactly where
/// they leave none.
pub proof fn law_video_is_planned_for_its_size(r: ExportRequest)
    requires
        !(r.kind is Gif),
    ensures
        r.target_bytes is None ==> planned(r) == Ok::<ExportPlan, Seq<char>>(ExportPlan::VideoOnce),
        r.target_bytes matches Some(target) ==> match planned(r) {
            Ok(plan) => plan matches ExportPlan::VideoSized(p) && p.target_bytes == target
                && p.attempt == 1 && first_rate(target, r.output_duration, r.audio_kbps) == Ok::<
                u32,
                Seq<char>,
            >(p.kbps),
            Err(_) => first_rate(target, r.output_duration, r.audio_kbps) is Err,
        },
{
}

/// An animation that aims at no size is made in one pass; one that aims at a size starts with a first pass
/// for that size, and with the side that was asked for. It is refused exactly where it lasts longer than
/// thirty seconds.
pub proof fn law_animation_is_planned_for_its_size(r: ExportRequest)
    requires
        r.kind is Gif,
        r.output_duration.is_number(),
    ensures
        planned(r) is Ok <==> r.output_duration.value() <= 30 * unit(),
        planned(r) matches Ok(plan) ==> match r.target_bytes {
            None => plan matches ExportPlan::GifOnce { fps } && fps == 15,
            Some(target) => plan matches ExportPlan::GifSized(p) && p.target_bytes == target
                && p.attempt == 1 && p.resolution == r.output_resolution && p.fps == 15,
        },
{
    lemma_constants();
}

/// The bit rate of the sound that a plan counts with is the one that the pass is made with.
pub proof fn law_planned_sound_is_made(p: VideoPass)
    ensures
        ({
            let kbps = audio_rate(p.strip_audio, p.has_audio, p.webm_vp9);
            &&& kbps > 0 ==> has_rate(video_args(p), "-b:a"@, kbps as nat)
            &&& kbps == 0 ==> video_args(p).contains(ArgView::Text("-an"@))
        }),
{
    law_sound_follows_picture(p);
    reveal_strlit("128");
    reveal_strlit("192");
    reveal_strlit("128k");
    reveal_strlit("192k");
    reveal_strlit("k");
    assert("128k"@ =~= "128"@ + "k"@);
    assert("192k"@ =~= "192"@ + "k"@);
    reveal_with_fuel(digits_value, 4);
    assert("128"@.drop_last().drop_last().drop_last() =~= Seq::<char>::empty());
    assert(digits_value("128"@) == 128);
    assert(digits_value("192"@) == 192);
    assert(is_number_text("128"@, 128));
    assert(is_number_text("192"@, 192));
}

/// How an export is made, or why it is not: an animation lasts at most thirty seconds and starts at
/// the frame rate of animations, and the size of a video has to leave the lowest bit rate.
pub open spec fn planned(r: ExportRequest) -> Result<ExportPlan, Seq<char>> {
    match (r.kind, r.target_bytes) {
        (OutputKind::Gif, None) => if (Real { bits: THIRTY }).below(r.output_duration) {
            Err("GIF >30s; use MB target."@)
        } else {
            Ok(ExportPlan::GifOnce { fps: GIF_FPS })
        },
        (OutputKind::Gif, Some(target_bytes)) => if (Real { bits: THIRTY }).below(
            r.output_duration,
        ) {
            Err("GIF >30s; shorten clip."@)
        } else {
            Ok(
                ExportPlan::GifSized(
                    GifPasses {
                        target_bytes,
                        attempt: 1,
                        resolution: r.output_resolution,
                        fps: GIF_FPS,
                    },
                ),
            )
        },
        (_, None) => Ok(ExportPlan::VideoOnce),
        (_, Some(target_bytes)) => match first_rate(target_bytes, r.output_duration, r.audio_kbps) {
            Ok(kbps) => Ok(
                ExportPlan::VideoSized(VideoPasses { target_bytes, attempt: 1, kbps }),
            ),
            Err(why) => Err(why),
        },
    }
}

/// How an export is made, or why it is not.
pub fn plan_export(request: &ExportRequest) -> (r: Result<ExportPlan, String>)
    ensures
        match r {
            Ok(plan) => planned(*request) == Ok::<ExportPlan, Seq<char>>(plan),
            Err(e) => planned(*request) == Err::<ExportPlan, Seq<char>>(e@),
        },
{
    match request.kind {
        OutputKind::Gif => {
            let too_long = (Real { bits: THIRTY }).lt(request.output_duration);
            match request.target_bytes {
                None => {
                    if too_long {
                        Err("GIF >30s; use MB target.".to_string())
                    } else {
                        Ok(ExportPlan::GifOnce { fps: GIF_FPS })
                    }
                },
                Some(target_bytes) => {
                    if too_long {
                        Err("GIF >30s; shorten clip.".to_string())
                    } else {
                        Ok(
                            ExportPlan::GifSized(
                                GifPasses::new(target_bytes, request.output_resolution, GIF_FPS),
                            ),
                        )
                    }
                },
            }
        },
        _ => match request.target_bytes {
            None => Ok(ExportPlan::VideoOnce),
            Some(target_bytes) => {
                match target_video_bitrate_kbps(
                    target_bytes,
                    request.output_duration,
                    request.audio_kbps,
                ) {
                    Ok(kbps) => Ok(ExportPlan::VideoSized(VideoPasses::new(target_bytes, kbps))),
                    Err(e) => Err(e),
                }
            },
        },
    }
}

/// Every animation lasts at most thirty seconds, whether or not a size is aimed at, if its length is
/// a number.
pub proof fn law_animation_is_short(r: ExportRequest)
    requires
        r.kind is Gif,
        planned(r) is Ok,
        r.output_duration.is_number(),
    ensures
        r.output_duration.value() <= 30 * unit(),
{
    lemma_constants();
}

/// The first pass of every animation is made at fifteen frames a second, without a limit to its
/// shorter side; and only animations are planned so.
pub proof fn law_animation_starts_at_its_profile(r: ExportRequest)
    requires
        planned(r) is Ok,
    ensures
        match planned(r)->Ok_0 {
            ExportPlan::GifOnce { fps } => r.kind is Gif && fps == 15,
            ExportPlan::GifSized(p) => r.kind is Gif && p.fps == 15 && side_of(p) is None,
            _ => !(r.kind is Gif),
        },
{
}

/// Sound has no influence on how an animation is made.
pub proof fn law_sound_does_not_matter_to_animations(r: ExportRequest, audio_kbps: u32)
    requires
        r.kind is Gif,
    ensures
        planned(ExportRequest { audio_kbps, ..r }) == planned(r),
{
}

} // verus!
