//! Small pictures of a video, as addresses that hold their data.

use crate::arithmetic::{
    apart, difference, lemma_difference_error, lemma_large, lemma_parts, lemma_product_error,
    lemma_ratio_near, lemma_times, lemma_unit_is_large, product, quotient, whole, LARGE,
};
use crate::double::{lemma_constants, lemma_zero, unit, Real, HALF};
use crate::options::is_no_time;
use crate::text::{cat2, lossy_text, text_from_bytes, trim, trimmed};
use vstd::arithmetic::power2::{lemma_pow2_adds, lemma_pow2_pos, pow2};
use vstd::prelude::*;

verus! {

/// The bit pattern of 0.05.
pub const TWENTIETH: u64 = 0x3fa9_9999_9999_999a;

/// How many pictures are made of a video.
pub const PREVIEW_COUNT: usize = 7;

/// The character for a number below 64 in the standard Base64 alphabet.
pub open spec fn base64_char(n: int) -> char {
    if n < 26 {
        (('A' as u32 + n) as u32) as char
    } else if n < 52 {
        (('a' as u32 + n - 26) as u32) as char
    } else if n < 62 {
        (('0' as u32 + n - 52) as u32) as char
    } else if n == 62 {
        '+'
    } else {
        '/'
    }
}

/// A byte of the data; zero behind its end.
pub open spec fn byte_or_zero(data: Seq<u8>, i: int) -> int {
    if i < data.len() {
        data[i] as int
    } else {
        0
    }
}

/// The six bits of the data that the character at an index stands for: each three bytes make four
/// characters.
pub open spec fn six_bits(data: Seq<u8>, i: int) -> int {
    let first = i / 4 * 3;
    let group = byte_or_zero(data, first) * 0x10000 + byte_or_zero(data, first + 1) * 0x100
        + byte_or_zero(data, first + 2);
    if i % 4 == 0 {
        group / 0x40000
    } else if i % 4 == 1 {
        group / 0x1000 % 64
    } else if i % 4 == 2 {
        group / 64 % 64
    } else {
        group % 64
    }
}

/// Data in Base64, with the standard alphabet and padding: characters that would stand for no
/// byte of the data are equals signs.
pub open spec fn base64_text(data: Seq<u8>) -> Seq<char> {
    Seq::new(
        (data.len() + 2) / 3 * 4,
        |i: int|
            if i / 4 * 3 + i % 4 > data.len() {
                '='
            } else {
                base64_char(six_bits(data, i))
            },
    )
}

/// `base64::engine::general_purpose::STANDARD.encode`: the data in Base64, with the standard
/// alphabet and padding. Text of more than `isize::MAX` bytes cannot be held.
#[verifier::external_body]
fn encode_base64(data: &[u8]) -> (s: String)
    requires
        (data@.len() + 2) / 3 * 4 <= isize::MAX,
    ensures
        s@ == base64_text(data@),
{
    base64::Engine::encode(&base64::engine::general_purpose::STANDARD, data)
}

/// The address that holds a picture.
pub open spec fn picture_url(data: Seq<u8>) -> Seq<char> {
    "data:image/jpeg;base64,"@ + base64_text(data)
}

/// The number below 64 that a character of the standard Base64 alphabet stands for; zero for padding.
pub open spec fn base64_value(c: char) -> int {
    if 'A' <= c <= 'Z' {
        c as int - 65
    } else if 'a' <= c <= 'z' {
        c as int - 71
    } else if '0' <= c <= '9' {
        c as int + 4
    } else if c == '+' {
        62
    } else if c == '/' {
        63
    } else {
        0
    }
}

/// The three bytes, as one number, that four characters of a text in Base64 stand for.
pub open spec fn read_group(text: Seq<char>, k: int) -> int {
    base64_value(text[4 * k]) * 262144 + base64_value(text[4 * k + 1]) * 4096 + base64_value(
        text[4 * k + 2],
    ) * 64 + base64_value(text[4 * k + 3])
}

/// The byte at an index of the data that a text in Base64 stands for.
pub open spec fn read_byte(text: Seq<char>, i: int) -> int {
    let group = read_group(text, i / 3);
    if i % 3 == 0 {
        group / 65536
    } else if i % 3 == 1 {
        group / 256 % 256
    } else {
        group % 256
    }
}

/// The address of a picture holds its data: read as Base64, what follows the kind of the data is the data,
/// byte by byte, and the padding at its end says how many bytes it has.
pub proof fn law_picture_is_read_back(data: Seq<u8>)
    ensures
        ({
            let kind = "data:image/jpeg;base64,"@;
            let text = picture_url(data).skip(kind.len() as int);
            &&& picture_url(data).take(kind.len() as int) == kind
            &&& text.len() % 4 == 0
            &&& forall|i: int| 0 <= i < data.len() ==> #[trigger] data[i] == read_byte(text, i)
            &&& data.len() == text.len() / 4 * 3 - (if text.len() == 0 || text.last() != '=' {
                0int
            } else if text[text.len() - 2] != '=' {
                1
            } else {
                2
            })
        }),
{
    let kind = "data:image/jpeg;base64,"@;
    let text = base64_text(data);
    assert(picture_url(data).skip(kind.len() as int) =~= text);
    assert(picture_url(data).take(kind.len() as int) =~= kind);
    assert forall|i: int| 0 <= i < data.len() implies #[trigger] data[i] == read_byte(text, i) by {
        lemma_read_byte(text, data, i);
    }
    lemma_padding(text, data);
}

proof fn lemma_read_byte(text: Seq<char>, data: Seq<u8>, i: int)
    requires
        text == base64_text(data),
        0 <= i < data.len(),
    ensures
        data[i] == read_byte(text, i),
{
    let k = i / 3;
    lemma_read_group(text, data, k);
    lemma_three_bytes(
        byte_or_zero(data, 3 * k),
        byte_or_zero(data, 3 * k + 1),
        byte_or_zero(data, 3 * k + 2),
    );
    assert(i == 3 * k + i % 3);
}

proof fn lemma_three_bytes(a: int, b: int, c: int)
    requires
        0 <= a < 256,
        0 <= b < 256,
        0 <= c < 256,
    ensures
        (a * 65536 + b * 256 + c) / 65536 == a,
        (a * 65536 + b * 256 + c) / 256 % 256 == b,
        (a * 65536 + b * 256 + c) % 256 == c,
{
    assert((a * 65536 + b * 256 + c) / 256 == a * 256 + b);
}

proof fn lemma_four_parts(g: int)
    requires
        0 <= g < 0x100_0000,
    ensures
        g == g / 0x40000 * 262144 + g / 0x1000 % 64 * 4096 + g / 64 % 64 * 64 + g % 64,
{
    let a = g / 64;
    let b = a / 64;
    assert(b == g / 0x1000);
    assert(b / 64 == g / 0x40000);
}

proof fn lemma_read_group(text: Seq<char>, data: Seq<u8>, k: int)
    requires
        text == base64_text(data),
        0 <= 3 * k < data.len(),
    ensures
        read_group(text, k) == byte_or_zero(data, 3 * k) * 65536 + byte_or_zero(data, 3 * k + 1)
            * 256 + byte_or_zero(data, 3 * k + 2),
{
    lemma_base64_char(text, data, 4 * k);
    lemma_base64_char(text, data, 4 * k + 1);
    lemma_base64_char(text, data, 4 * k + 2);
    lemma_base64_char(text, data, 4 * k + 3);
    let g = byte_or_zero(data, 3 * k) * 0x10000 + byte_or_zero(data, 3 * k + 1) * 0x100
        + byte_or_zero(data, 3 * k + 2);
    lemma_four_parts(g);
    assert(six_bits(data, 4 * k) == g / 0x40000);
    assert(six_bits(data, 4 * k + 1) == g / 0x1000 % 64);
    assert(six_bits(data, 4 * k + 2) == g / 64 % 64);
    assert(six_bits(data, 4 * k + 3) == g % 64);
}

proof fn lemma_padding(text: Seq<char>, data: Seq<u8>)
    requires
        text == base64_text(data),
    ensures
        text.len() % 4 == 0,
        data.len() == text.len() / 4 * 3 - (if text.len() == 0 || text.last() != '=' {
            0int
        } else if text[text.len() - 2] != '=' {
            1
        } else {
            2
        }),
{
    let n = text.len() as int;
    if n > 0 {
        lemma_base64_char(text, data, n - 1);
        lemma_base64_char(text, data, n - 2);
    }
}

proof fn lemma_base64_char(text: Seq<char>, data: Seq<u8>, i: int)
    requires
        text == base64_text(data),
        0 <= i < text.len(),
    ensures
        base64_value(text[i]) == six_bits(data, i),
        text[i] == '=' <==> i / 4 * 3 + i % 4 > data.len(),
{
    let first = i / 4 * 3;
    assert(0 <= first < data.len());
    let n = six_bits(data, i);
    assert(0 <= n < 64);
    let c = base64_char(n);
    assert(base64_value(c) == n && c != '=');
}

/// The address of the picture that the program wrote, or what it said in place of it.
pub fn preview_reply(success: bool, stdout: &[u8], stderr: &[u8]) -> (r: Result<String, String>)
    requires
        (stdout@.len() + 2) / 3 * 4 <= isize::MAX,
    ensures
        match r {
            Ok(url) => success && stdout@.len() > 0 && url@ == picture_url(stdout@),
            Err(e) => !(success && stdout@.len() > 0) && e@ == trimmed(lossy_text(stderr@)),
        },
{
    if !success || stdout.len() == 0 {
        Err(trim(text_from_bytes(stderr).as_str()))
    } else {
        Ok(cat2("data:image/jpeg;base64,", encode_base64(stdout).as_str()))
    }
}

/// The place of a picture, of so many that are spread over a length: the first is at the beginning,
/// the last at the end.
pub open spec fn place_of(duration: Real, index: nat, count: nat) -> Real {
    product(duration, quotient(whole(index), whole((count - 1) as nat)))
}

/// The last moment at which a picture is made: shortly before the end.
pub open spec fn latest_of(duration: Real) -> Real {
    difference(duration, Real { bits: TWENTIETH }).not_negative()
}

/// The moments at which pictures of a video of this length are made. None are made of a video of no
/// length. A single picture is made in the middle; several are spread over the length.
pub open spec fn moments(duration: Real, count: nat) -> Seq<Real> {
    if is_no_time(duration) || count == 0 {
        Seq::empty()
    } else if count == 1 {
        seq![product(duration, Real { bits: HALF }).not_negative()]
    } else {
        Seq::new(
            count,
            |i: int| place_of(duration, i as nat, count).smaller(latest_of(duration)),
        )
    }
}

/// The moments at which pictures of a video of this length are made.
pub fn preview_timestamps(duration: Real, count: usize) -> (r: Vec<Real>)
    ensures
        r@ == moments(duration, count as nat),
{
    proof {
        lemma_zero();
    }
    let mut list: Vec<Real> = Vec::new();
    if duration.le(Real { bits: 0 }) || count == 0 {
        return list;
    }
    if count == 1 {
        list.push(duration.times(Real { bits: HALF }).max_zero());
        assert(list@ =~= moments(duration, count as nat));
        return list;
    }
    let latest = duration.minus(Real { bits: TWENTIETH }).max_zero();
    let last = Real::from_whole((count - 1) as u64);
    let mut i: usize = 0;
    while i < count
        invariant
            i <= count,
            count > 1,
            list@.len() == i,
            latest == latest_of(duration),
            last == whole((count - 1) as nat),
            forall|j: int|
                0 <= j < i ==> #[trigger] list@[j] == place_of(
                    duration,
                    j as nat,
                    count as nat,
                ).smaller(latest),
        decreases count - i,
    {
        let ratio = Real::from_whole(i as u64).over(last);
        list.push(duration.times(ratio).min(latest));
        i += 1;
    }
    assert(list@ =~= moments(duration, count as nat));
    list
}

/// No picture is made before the beginning of a video or, of several, after the last moment.
pub proof fn law_moments_lie_in_video(duration: Real, count: nat, i: int)
    requires
        0 <= i < moments(duration, count).len(),
    ensures
        moments(duration, count)[i].is_number(),
        moments(duration, count)[i].value() >= 0,
        count > 1 ==> moments(duration, count)[i].at_most(latest_of(duration)),
{
    lemma_zero();
    let latest = latest_of(duration);
    assert(latest.is_number() && latest.value() >= 0);
    if count > 1 {
        let ratio = quotient(whole(i as nat), whole((count - 1) as nat));
        let place = place_of(duration, i as nat, count);
        assert(moments(duration, count)[i] == place.smaller(latest));
        assert(!whole(i as nat).is_negative() && !whole((count - 1) as nat).is_negative());
        assert(!ratio.is_negative());
        assert(place.is_number() ==> !place.is_negative());
    }
}

/// Of a video of a millionth of a second to a million of millions of seconds: a single picture is made in
/// the middle. Several, up to two to the power of 32, are spread evenly: times the number of steps, the
/// moment of a picture is the length times its index, to one part in a million, unless the picture would
/// be made later than a twentieth of a second before the end; then it is made there.
pub proof fn law_pictures_are_spread_evenly(duration: Real, count: nat, i: int)
    requires
        duration.is_finite(),
        duration.value() <= 1_000_000_000_000 * unit(),
        1_000_000 * duration.value() >= unit(),
        0 < count <= 0x1_0000_0000,
        0 <= i < count,
    ensures
        moments(duration, count).len() == count,
        ({
            let m = moments(duration, count)[i].value();
            let d = duration.value();
            let latest = latest_of(duration).value();
            let exact = if 20 * d >= unit() {
                20 * d - unit()
            } else {
                0
            };
            &&& count == 1 ==> 1_000_000 * apart(2 * m, d) <= d
            &&& count > 1 ==> {
                &&& m <= latest
                &&& 1_000_000 * ((count - 1) * m) <= 1_000_001 * (i * d)
                &&& m < latest ==> 999_999 * (i * d) <= 1_000_000 * ((count - 1) * m)
                &&& 1_000_000 * apart(20 * latest, exact) <= 20 * d + unit()
            }
        }),
{
    lemma_zero();
    lemma_large();
    lemma_constants();
    lemma_unit_is_large();
    let u = unit();
    let l = pow2(1000) as int;
    let d = duration.value();
    if count == 1 {
        let half = Real { bits: HALF };
        let h = half.value();
        assert(2 * (d * h) == d * u) by (nonlinear_arith)
            requires
                2 * h == u,
        ;
        assert(d * u <= l * u * u) by (nonlinear_arith)
            requires
                d <= 1_000_000_000_000 * u,
                l >= 1_000_000_000_000,
                u > 0,
        ;
        assert(d * u >= 0x20_0000_0000_0000 * u) by (nonlinear_arith)
            requires
                d >= 0x20_0000_0000_0000,
                u > 0,
        ;
        lemma_product_error(duration, half);
        let m = product(duration, half).value();
        assert(0x20_0000_0000_0000 * (2 * m) <= 0x20_0000_0000_0001 * d && 0x1f_ffff_ffff_ffff * d
            <= 0x20_0000_0000_0000 * (2 * m)) by (nonlinear_arith)
            requires
                0x20_0000_0000_0000 * (2 * (m * u)) <= 0x20_0000_0000_0001 * (d * u),
                0x1f_ffff_ffff_ffff * (d * u) <= 0x20_0000_0000_0000 * (2 * (m * u)),
                u > 0,
        ;
    } else {
        let s = (count - 1) as nat;
        let latest = latest_of(duration);
        lemma_latest(duration);
        lemma_ratio_near(i as nat, s);
        let ratio = quotient(whole(i as nat), whole(s));
        let q = ratio.value();
        let x = q * s;
        let y = i * u;
        assert(q * d >= 0 && q * d <= l * u * u) by (nonlinear_arith)
            requires
                0 <= q <= 0x2_0000_0000_0000_0000 * u,
                0 <= d <= 1_000_000_000_000 * u,
                l >= 0x1_0000_0000_0000_0000_0000_0000_0000_0000_0000_0000,
                u > 0,
        ;
        if i > 0 {
            assert(y >= u) by (nonlinear_arith)
                requires
                    y == i * u,
                    i >= 1,
                    u > 0,
            ;
            assert(0x2_0000_0000 * q >= u) by (nonlinear_arith)
                requires
                    99_999_996 * y <= 100_000_000 * (q * s),
                    y >= u,
                    0 < s <= 0x1_0000_0000,
                    u > 0,
            ;
            assert(q * d >= 0x10_0000_0000_0000 * u) by (nonlinear_arith)
                requires
                    0x2_0000_0000 * q >= u,
                    1_000_000 * d >= u,
                    u >= 0x1_0000_0000_0000_0000_0000_0000_0000_0000_0000_0000,
            ;
        } else {
            assert(y == 0) by (nonlinear_arith)
                requires
                    y == i * u,
                    i == 0,
            ;
            assert(q == 0) by (nonlinear_arith)
                requires
                    100_000_000 * (q * s) <= 0,
                    s > 0,
                    q >= 0,
            ;
            assert(q * d == 0) by (nonlinear_arith)
                requires
                    q == 0,
            ;
        }
        assert(d * q == q * d) by (nonlinear_arith);
        lemma_product_error(duration, ratio);
        let place = place_of(duration, i as nat, count);
        let v = place.value();
        let m = moments(duration, count)[i];
        assert(m == place.smaller(latest));
        let e = d * q;
        // v * u is d * q, and q * s is i * u.
        assert(e * s == d * x) by (nonlinear_arith)
            requires
                e == d * q,
                x == q * s,
        ;
        let w = v * s;
        assert((v * u) * s == w * u) by (nonlinear_arith)
            requires
                w == v * s,
        ;
        lemma_times(0x20_0000_0000_0000, v * u, 0x20_0000_0000_0001, e, s as int);
        lemma_times(0x1f_ffff_ffff_ffff, e, 0x20_0000_0000_0000, v * u, s as int);
        lemma_times(100_000_000, x, 100_000_004, y, d);
        lemma_times(99_999_996, y, 100_000_000, x, d);
        let g = i * d;
        assert(x * d == d * x && y * d == g * u) by (nonlinear_arith)
            requires
                y == i * u,
                g == i * d,
        ;
        assert(g * u >= 0 && w * u >= 0) by (nonlinear_arith)
            requires
                g == i * d,
                w == v * s,
                i >= 0,
                d >= 0,
                v >= 0,
                s >= 0,
                u > 0,
        ;
        assert(1_000_000 * (w * u) <= 1_000_001 * (g * u));
        assert(999_999 * (g * u) <= 1_000_000 * (w * u));
        assert(1_000_000 * w <= 1_000_001 * g && 999_999 * g <= 1_000_000 * w) by (nonlinear_arith)
            requires
                1_000_000 * (w * u) <= 1_000_001 * (g * u),
                999_999 * (g * u) <= 1_000_000 * (w * u),
                u > 0,
        ;
        assert(s * v == w && s * m.value() <= w) by (nonlinear_arith)
            requires
                w == v * s,
                m.value() <= v,
                s >= 0,
        ;
    }
}

proof fn lemma_latest(duration: Real)
    requires
        duration.is_finite(),
        duration.value() <= 1_000_000_000_000 * unit(),
        duration.value() >= 0,
    ensures
        latest_of(duration).is_finite(),
        ({
            let d = duration.value();
            let exact = if 20 * d >= unit() {
                20 * d - unit()
            } else {
                0
            };
            1_000_000 * apart(20 * latest_of(duration).value(), exact) <= 20 * d + unit()
        }),
{
    lemma_zero();
    lemma_large();
    lemma_unit_is_large();
    vstd::arithmetic::power2::lemma2_to64();
    vstd::arithmetic::power2::lemma2_to64_rest();
    lemma_parts(TWENTIETH as nat);
    lemma_pow2_adds(1017, 57);
    lemma_pow2_pos(1017);
    let p = pow2(1017);
    let u = unit();
    let l = pow2(1000) as int;
    let t = Real { bits: TWENTIETH };
    assert(99_999_999 * (p * 0x200_0000_0000_0000) <= 100_000_000 * (20 * (0x19_9999_9999_999a * p))
        && 100_000_000 * (20 * (0x19_9999_9999_999a * p)) <= 100_000_001 * (p
        * 0x200_0000_0000_0000)) by (nonlinear_arith)
        requires
            p > 0,
    ;
    let d = duration.value();
    assert(d <= l * u && t.value() <= l * u) by (nonlinear_arith)
        requires
            d <= 1_000_000_000_000 * u,
            t.value() <= u,
            l >= 1_000_000_000_000,
            u > 0,
    ;
    lemma_difference_error(duration, t, Real { bits: LARGE });
}

/// Seven pictures are made of a video that has a length.
pub proof fn law_row_has_seven_pictures(duration: Real)
    requires
        duration.is_number(),
        duration.value() > 0,
    ensures
        moments(duration, PREVIEW_COUNT as nat).len() == 7,
{
}

/// Refuses a row of pictures without any.
pub fn check_preview_count(count: usize) -> (r: Result<(), String>)
    ensures
        r is Ok <==> count > 0,
        r matches Err(e) ==> e@ == "Could not generate preview frames."@,
{
    if count == 0 {
        Err("Could not generate preview frames.".to_string())
    } else {
        Ok(())
    }
}

} // verus!
