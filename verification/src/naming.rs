//! The names of exported files.

use crate::arithmetic::{
    absolute, apart, difference, lemma_difference_error, lemma_large, lemma_nearest_bounds,
    lemma_parts, lemma_sum_error, lemma_unit_is_large, sum, whole, LARGE,
};
use crate::double::{lemma_zero, magnitude_value, unit, Real, THOUSANDTH};
use crate::notation::{
    decimal_units, fixed, fixed_text, lemma_fixed_whole, lemma_padded_value, lemma_ten_positive,
    padded, pointed, ten_to,
};
use crate::options::{extension_of, output_extension, SpeedOptions};
use crate::rounding::EXACT;
use crate::text::{
    all_digits, cat2, cat3, cat5, chars_of, decimal, digits_value, is_digit, is_space,
    law_trimming_takes_only_white_space, lemma_decimal_digits, lemma_decimal_injective,
    lemma_decimal_value, number, position, trim, trimmed,
};
use crate::video::VideoClip;
use vstd::arithmetic::power2::{lemma_pow2_adds, lemma_pow2_pos, pow2};
use vstd::prelude::*;

verus! {

/// The number that no numbered name reaches.
pub const NAME_LIMIT: u32 = 10_000;

// ---------------------------------------------------------------------------------------------
// Labels
// ---------------------------------------------------------------------------------------------

/// A text without the zeros at its end.
pub open spec fn without_zeros(s: Seq<char>) -> Seq<char>
    decreases s.len(),
{
    if s.len() > 0 && s.last() == '0' {
        without_zeros(s.drop_last())
    } else {
        s
    }
}

/// A number with a decimal point without the zeros at its end, and without the point where no
/// decimal is left; any other text as it is.
pub open spec fn shortened(s: Seq<char>) -> Seq<char> {
    let t = if s.contains('.') {
        without_zeros(s)
    } else {
        s
    };
    if t.len() > 0 && t.last() == '.' {
        t.drop_last()
    } else {
        t
    }
}

/// A text with an underscore in place of each point.
pub open spec fn underscored(s: Seq<char>) -> Seq<char> {
    Seq::new(
        s.len(),
        |i: int|
            if s[i] == '.' {
                '_'
            } else {
                s[i]
            },
    )
}

/// A number in fixed notation as a part of a file name.
pub open spec fn label_of(fixed: Seq<char>) -> Seq<char> {
    underscored(shortened(fixed))
}

proof fn lemma_without_zeros_take(s: Seq<char>, n: int)
    requires
        0 <= n <= s.len(),
        forall|i: int| n <= i < s.len() ==> s[i] == '0',
    ensures
        without_zeros(s) == without_zeros(s.take(n)),
    decreases s.len() - n,
{
    if n < s.len() {
        assert(s.drop_last() =~= s.take(s.len() - 1));
        assert(s.take(s.len() - 1).take(n) =~= s.take(n));
        lemma_without_zeros_take(s.take(s.len() - 1), n);
    } else {
        assert(s.take(n) =~= s);
    }
}

fn label(fixed: &str) -> (r: String)
    ensures
        r@ == label_of(fixed@),
{
    let chars = chars_of(fixed);
    let point = crate::text::find_char(&chars, '.', 0);
    proof {
        crate::text::lemma_position(chars@, '.', 0);
    }
    let mut end: usize = chars.len();
    if point < chars.len() {
        while end > 0 && chars[end - 1] == '0'
            invariant
                end <= chars@.len(),
                forall|i: int| end <= i < chars@.len() ==> chars@[i] == '0',
            decreases end,
        {
            end -= 1;
        }
        proof {
            assert(chars@.contains('.'));
            lemma_without_zeros_take(chars@, end as int);
            assert(chars@.take(end as int).len() == end);
            if end > 0 {
                assert(chars@.take(end as int).last() == chars@[end - 1]);
            }
            assert(without_zeros(chars@.take(end as int)) == chars@.take(end as int));
        }
    } else {
        assert(!chars@.contains('.'));
        assert(chars@.take(end as int) =~= chars@);
    }
    let ghost kept = chars@.take(end as int);
    if end > 0 && chars[end - 1] == '.' {
        assert(kept.last() == '.');
        end -= 1;
        assert(kept.drop_last() =~= chars@.take(end as int));
    } else if end > 0 {
        assert(kept.last() == chars@[end - 1]);
    }
    let ghost short = shortened(fixed@);
    assert(short == chars@.take(end as int));
    let mut r = String::new();
    let mut i: usize = 0;
    while i < end
        invariant
            i <= end <= chars@.len(),
            short == chars@.take(end as int),
            r@ == underscored(short).take(i as int),
        decreases end - i,
    {
        let c = if chars[i] == '.' {
            '_'
        } else {
            chars[i]
        };
        r.push(c);
        assert(underscored(short).take(i + 1) =~= underscored(short).take(i as int).push(c));
        i += 1;
    }
    assert(underscored(short).take(end as int) =~= underscored(short));
    r
}

/// The part of a file name for a speed: up to three decimals.
pub open spec fn speed_label_of(speed: Real) -> Seq<char> {
    label_of(fixed_text(speed, 3))
}

/// The part of a file name for a number of seconds: up to two decimals.
pub open spec fn target_label_of(seconds: Real) -> Seq<char> {
    label_of(fixed_text(seconds, 2))
}

/// The part of a file name for a speed.
pub fn speed_label(speed: Real) -> (r: String)
    ensures
        r@ == speed_label_of(speed),
{
    label(fixed(speed, 3).as_str())
}

/// The part of a file name for a number of seconds.
pub fn target_label(seconds: Real) -> (r: String)
    ensures
        r@ == target_label_of(seconds),
{
    label(fixed(seconds, 2).as_str())
}

/// No label holds a point, so the only point of a name is that before its ending.
pub proof fn law_label_has_no_point(fixed: Seq<char>)
    ensures
        !label_of(fixed).contains('.'),
{
    let short = shortened(fixed);
    assert forall|i: int| 0 <= i < label_of(fixed).len() implies label_of(fixed)[i] != '.' by {
        assert(label_of(fixed)[i] == underscored(short)[i]);
    }
}

proof fn lemma_label_of_whole_number(n: nat, zeros: Seq<char>)
    requires
        forall|i: int| 0 <= i < zeros.len() ==> zeros[i] == '0',
    ensures
        label_of(decimal(n) + "."@ + zeros) == decimal(n),
{
    reveal_strlit(".");
    let digits = decimal(n);
    let s = digits + "."@ + zeros;
    let k = digits.len() as int;
    lemma_decimal_digits(n);
    assert("."@.len() == 1 && "."@[0] == '.');
    assert(s[k] == '.');
    assert(s.contains('.'));
    lemma_without_zeros_take(s, k + 1);
    let t = s.take(k + 1);
    assert(t.last() == '.');
    assert(without_zeros(s) == t);
    assert(t.drop_last() =~= digits);
    assert(shortened(s) == digits);
    assert forall|i: int| 0 <= i < k implies underscored(digits)[i] == digits[i] by {
        assert(crate::text::is_digit(digits[i]));
    }
    assert(underscored(digits) =~= digits);
}

/// The labels of a whole number are the number.
pub proof fn law_label_of_whole_number(n: nat)
    requires
        n < EXACT,
    ensures
        speed_label_of(whole(n)) == decimal(n),
        target_label_of(whole(n)) == decimal(n),
{
    lemma_fixed_whole(n, 3);
    lemma_fixed_whole(n, 2);
    lemma_label_of_whole_number(n, padded(0, 3));
    lemma_label_of_whole_number(n, padded(0, 2));
}

/// How many of the last decimal units a label stands for: digits, and after an underscore the decimals
/// that are not left out.
pub open spec fn label_units(s: Seq<char>, decimals: nat) -> nat {
    let p = position(s, '_', 0);
    if p >= s.len() {
        digits_value(s) * ten_to(decimals)
    } else {
        digits_value(s.take(p)) * ten_to(decimals) + digits_value(s.skip(p + 1)) * ten_to(
            (decimals - (s.len() - p - 1)) as nat,
        )
    }
}

/// Whether a label stands for a number, as near as its decimals allow.
pub open spec fn labels(s: Seq<char>, a: Real, decimals: nat) -> bool {
    2 * apart(label_units(s, decimals) * unit(), a.value() * ten_to(decimals)) <= unit()
}

proof fn lemma_position_is(s: Seq<char>, c: char, from: int, at: int)
    requires
        0 <= from <= at < s.len(),
        s[at] == c,
        forall|i: int| from <= i < at ==> s[i] != c,
    ensures
        position(s, c, from) == at,
    decreases at - from,
{
    if from < at {
        lemma_position_is(s, c, from + 1, at);
    }
}

proof fn lemma_position_none(s: Seq<char>, c: char, from: int)
    requires
        0 <= from <= s.len(),
        forall|i: int| from <= i < s.len() ==> s[i] != c,
    ensures
        position(s, c, from) == s.len(),
    decreases s.len() - from,
{
    if from < s.len() {
        lemma_position_none(s, c, from + 1);
    }
}

/// How many of some digits are left once the zeros at their end are gone.
proof fn lemma_zeros_at_end(s: Seq<char>) -> (k: int)
    requires
        forall|i: int| 0 <= i < s.len() ==> is_digit(#[trigger] s[i]),
    ensures
        0 <= k <= s.len(),
        forall|i: int| k <= i < s.len() ==> s[i] == '0',
        k > 0 ==> s[k - 1] != '0',
        digits_value(s) == digits_value(s.take(k)) * ten_to((s.len() - k) as nat),
    decreases s.len(),
{
    assert(ten_to(0) == 1);
    if s.len() == 0 || s.last() != '0' {
        assert(s.take(s.len() as int) =~= s);
        assert(digits_value(s) * 1 == digits_value(s));
        s.len() as int
    } else {
        let t = s.drop_last();
        assert forall|i: int| 0 <= i < t.len() implies is_digit(#[trigger] t[i]) by {
            assert(t[i] == s[i]);
        }
        let k = lemma_zeros_at_end(t);
        assert(t.take(k) =~= s.take(k));
        let v = digits_value(t.take(k));
        let p = ten_to((t.len() - k) as nat);
        assert((v * p) * 10 == v * (10 * p)) by (nonlinear_arith);
        assert forall|i: int| k <= i < s.len() implies s[i] == '0' by {
            if i < t.len() {
                assert(t[i] == '0');
            }
        }
        if k > 0 {
            assert(t[k - 1] == s[k - 1]);
        }
        k
    }
}

proof fn lemma_label_units(units: nat, decimals: nat)
    requires
        decimals > 0,
    ensures
        label_units(label_of(pointed(units, decimals)), decimals) == units,
{
    reveal_strlit(".");
    lemma_ten_positive(decimals);
    let t = ten_to(decimals);
    let high = units / t;
    let low = units % t;
    assert(units == high * t + low && low < t) by (nonlinear_arith)
        requires
            high == units / t,
            low == units % t,
            t > 0,
    ;
    let h = decimal(high);
    let l = padded(low, decimals);
    lemma_decimal_digits(high);
    lemma_decimal_value(high);
    lemma_padded_value(low, decimals);
    let k = lemma_zeros_at_end(l);
    let s = pointed(units, decimals);
    let p = h.len() as int;
    assert(s =~= h + seq!['.'] + l);
    assert(s[p] == '.');
    assert(s.contains('.'));
    let e = p + 1 + k;
    assert forall|i: int| e <= i < s.len() implies s[i] == '0' by {
        assert(s[i] == l[i - p - 1]);
    }
    lemma_without_zeros_take(s, e);
    let kept = s.take(e);
    assert(kept.last() != '0') by {
        if k > 0 {
            assert(kept.last() == l[k - 1]);
        }
    }
    assert(without_zeros(s) == kept);
    let label = label_of(s);
    if k == 0 {
        assert(kept.last() == '.');
        assert(kept.drop_last() =~= h);
        assert forall|i: int| 0 <= i < p implies #[trigger] label[i] != '_' by {
            assert(is_digit(h[i]));
        }
        assert(label =~= h) by {
            assert forall|i: int| 0 <= i < p implies label[i] == h[i] by {
                assert(is_digit(h[i]));
            }
        }
        lemma_position_none(label, '_', 0);
        assert(l.take(0) =~= Seq::<char>::empty());
        assert(digits_value(l.take(0)) == 0);
        assert(0 * ten_to(l.len()) == 0);
    } else {
        assert(kept.last() == l[k - 1]);
        assert(is_digit(l[k - 1]));
        assert(label.len() == e);
        assert forall|i: int| 0 <= i < p implies #[trigger] label[i] == h[i] && label[i]
            != '_' by {
            assert(is_digit(h[i]));
            assert(s[i] == h[i]);
        }
        assert(label[p] == '_');
        assert forall|i: int| 0 <= i < k implies label[p + 1 + i] == #[trigger] l[i] by {
            assert(s[p + 1 + i] == l[i]);
            assert(is_digit(l[i]));
        }
        lemma_position_is(label, '_', 0, p);
        assert(label.take(p) =~= h);
        assert(label.skip(p + 1) =~= l.take(k));
    }
}

/// The label of a finite number that is not negative is read back as a number that differs from it by at
/// most half of the last decimal.
pub proof fn law_labels_are_near(a: Real)
    requires
        a.is_finite(),
        !a.is_negative(),
    ensures
        labels(speed_label_of(a), a, 3),
        labels(target_label_of(a), a, 2),
{
    lemma_label_near(a, 3);
    lemma_label_near(a, 2);
}

proof fn lemma_label_near(a: Real, decimals: nat)
    requires
        a.is_finite(),
        !a.is_negative(),
        decimals > 0,
    ensures
        labels(label_of(fixed_text(a, decimals)), a, decimals),
{
    reveal_strlit("");
    lemma_large();
    let units = decimal_units(a.magnitude(), decimals);
    lemma_label_units(units, decimals);
    lemma_nearest_bounds(
        magnitude_value(a.magnitude()) * ten_to(decimals),
        unit() as nat,
        0,
    );
    assert(fixed_text(a, decimals) =~= pointed(units, decimals));
}

// ---------------------------------------------------------------------------------------------
// Names
// ---------------------------------------------------------------------------------------------

/// Where a part of a video ends.
pub open spec fn end_of(clip: VideoClip) -> Real {
    sum(clip.start, clip.duration)
}

/// Whether less than the whole video is used: the part begins after the beginning, or ends away
/// from the end, by more than a thousandth of a second, or its length is limited.
pub open spec fn custom_range(clip: VideoClip, use_clip_length: bool) -> bool {
    let end_gap = absolute(difference(clip.source, end_of(clip)));
    (Real { bits: THOUSANDTH }).below(clip.start) || (Real { bits: THOUSANDTH }).below(end_gap)
        || use_clip_length
}

/// What the name says of the speed or of the length aimed at.
pub open spec fn timing_of(options: SpeedOptions, speed: Real) -> Seq<char> {
    if options.use_target_length {
        "target"@ + target_label_of(options.target_seconds) + "s"@
    } else {
        speed_label_of(speed) + "x"@
    }
}

/// What the name of an export says beyond that of its source.
pub open spec fn suffix_of(options: SpeedOptions, clip: VideoClip) -> Seq<char> {
    let timing = timing_of(options, clip.speed);
    if custom_range(clip, options.use_clip_length) {
        timing + "_range"@ + target_label_of(clip.start) + "s-"@ + target_label_of(end_of(clip))
            + "s"@
    } else {
        timing
    }
}

/// Whether a text says what an export is made for: the length aimed at, to two decimals; or the speed, to
/// three decimals, where none is aimed at.
pub open spec fn tells_timing(s: Seq<char>, options: SpeedOptions, speed: Real) -> bool {
    if options.use_target_length {
        exists|n: Seq<char>| #[trigger]
            labels(n, options.target_seconds, 2) && s == "target"@ + n + "s"@
    } else {
        exists|n: Seq<char>| #[trigger] labels(n, speed, 3) && s == n + "x"@
    }
}

/// Whether a text says where a part begins and ends, to two decimals. `end` is counted in units of the
/// smallest positive number; its notation may differ by one part in two to the power of 53 more.
pub open spec fn tells_range(s: Seq<char>, timing: Seq<char>, start: Real, end: int) -> bool {
    exists|a: Seq<char>, b: Seq<char>| #[trigger]
        labels(a, start, 2) && #[trigger] label_units(b, 2) >= 0 && 0x20_0000_0000_0000 * apart(
            2 * (label_units(b, 2) * unit()),
            200 * end,
        ) <= 0x20_0000_0000_0000 * unit() + 200 * end && s == timing + "_range"@ + a + "s-"@ + b
            + "s"@
}

/// The name of an export says the speed or the length aimed at. It also says where the part of the video
/// begins and where it ends, start and length together, if less than the whole video is used or a limit
/// to the length is set; and it does not, if the part begins and ends within half a thousandth of a second
/// of the video. In between, it may or may not. The lengths are those of videos of up to a thousand
/// millions of seconds.
pub proof fn law_name_tells_part(options: SpeedOptions, clip: VideoClip)
    requires
        clip.start.is_finite(),
        clip.duration.is_finite(),
        clip.source.is_finite(),
        clip.speed.is_finite(),
        options.target_seconds.is_finite(),
        !clip.start.is_negative(),
        !clip.duration.is_negative(),
        !clip.source.is_negative(),
        !clip.speed.is_negative(),
        !options.target_seconds.is_negative(),
        clip.start.value() <= 1_000_000_000 * unit(),
        clip.duration.value() <= 1_000_000_000 * unit(),
        clip.source.value() <= 1_000_000_000 * unit(),
    ensures
        ({
            let suffix = suffix_of(options, clip);
            let end = clip.start.value() + clip.duration.value();
            let ranged = options.use_clip_length || 1000 * clip.start.value() >= 2 * unit() || 1000
                * apart(clip.source.value(), end) >= 2 * unit();
            let whole = !options.use_clip_length && 2000 * clip.start.value() <= unit() && 2000
                * apart(clip.source.value(), end) <= unit();
            exists|timing: Seq<char>| #[trigger]
                tells_timing(timing, options, clip.speed) && (ranged ==> tells_range(
                    suffix,
                    timing,
                    clip.start,
                    end,
                )) && (whole ==> suffix == timing) && (suffix == timing || tells_range(
                    suffix,
                    timing,
                    clip.start,
                    end,
                ))
        }),
{
    lemma_large();
    lemma_zero();
    lemma_unit_is_large();
    let u = unit();
    let l = pow2(1000) as int;
    let timing = timing_of(options, clip.speed);
    if options.use_target_length {
        law_labels_are_near(options.target_seconds);
        assert(labels(target_label_of(options.target_seconds), options.target_seconds, 2));
    } else {
        law_labels_are_near(clip.speed);
        assert(labels(speed_label_of(clip.speed), clip.speed, 3));
    }
    assert(tells_timing(timing, options, clip.speed));
    law_labels_are_near(clip.start);
    let end = end_of(clip);
    let exact = clip.start.value() + clip.duration.value();
    assert(exact <= l * u) by (nonlinear_arith)
        requires
            exact <= 2_000_000_000 * u,
            l >= 2_000_000_000,
            u > 0,
    ;
    lemma_sum_error(clip.start, clip.duration);
    law_labels_are_near(end);
    reveal_with_fuel(ten_to, 3);
    let a = target_label_of(clip.start);
    let b = target_label_of(end);
    let high = Real { bits: LARGE };
    assert(clip.source.value() <= l * u && end.value() <= l * u) by (nonlinear_arith)
        requires
            clip.source.value() <= 1_000_000_000 * u,
            end.value() <= 3_000_000_000 * u,
            l >= 3_000_000_000,
            u > 0,
    ;
    lemma_difference_error(clip.source, end, high);
    lemma_thousandth();
    let gap = absolute(difference(clip.source, end));
    assert(gap.value() == apart(difference(clip.source, end).value(), 0));
    if custom_range(clip, options.use_clip_length) {
        let e = end.value();
        assert(e * ten_to(2) == 100 * e) by (nonlinear_arith)
            requires
                ten_to(2) == 100,
        ;
        assert(labels(a, clip.start, 2) && label_units(b, 2) >= 0);
        assert(tells_range(suffix_of(options, clip), timing, clip.start, exact));
    }
}

proof fn lemma_thousandth()
    ensures
        (Real { bits: THOUSANDTH }).is_finite(),
        999 * unit() <= 1_000_000 * (Real { bits: THOUSANDTH }).value(),
        1_000_000 * (Real { bits: THOUSANDTH }).value() <= 1_001 * unit(),
{
    vstd::arithmetic::power2::lemma2_to64();
    vstd::arithmetic::power2::lemma2_to64_rest();
    lemma_parts(THOUSANDTH as nat);
    lemma_pow2_adds(1012, 62);
    lemma_pow2_pos(1012);
    let p = pow2(1012);
    assert(999 * (p * 0x4000_0000_0000_0000) <= 1_000_000 * (0x10_624d_d2f1_a9fc * p) && 1_000_000 * (
    0x10_624d_d2f1_a9fc * p) <= 1_001 * (p * 0x4000_0000_0000_0000)) by (nonlinear_arith)
        requires
            p > 0,
    ;
}

/// Where the names of two parts of a video that begin at the same moment are the same and say where the
/// parts end, the parts end within about a hundredth of a second of one another.
pub proof fn law_ranges_tell_ends_apart(options: SpeedOptions, a: VideoClip, b: VideoClip)
    requires
        a.start == b.start,
        a.speed == b.speed,
        custom_range(a, options.use_clip_length),
        custom_range(b, options.use_clip_length),
        a.start.is_finite(),
        a.duration.is_finite(),
        b.duration.is_finite(),
        !a.start.is_negative(),
        !a.duration.is_negative(),
        !b.duration.is_negative(),
        a.start.value() <= 1_000_000_000 * unit(),
        a.duration.value() <= 1_000_000_000 * unit(),
        b.duration.value() <= 1_000_000_000 * unit(),
        suffix_of(options, a) == suffix_of(options, b),
    ensures
        999 * apart(a.duration.value(), b.duration.value()) <= 10 * unit(),
{
    lemma_large();
    lemma_unit_is_large();
    let u = unit();
    let l = pow2(1000) as int;
    let x = target_label_of(end_of(a));
    let y = target_label_of(end_of(b));
    let head = timing_of(options, a.speed) + "_range"@ + target_label_of(a.start) + "s-"@;
    let s = suffix_of(options, a);
    assert(s =~= head + x + "s"@);
    assert(s =~= head + y + "s"@);
    assert(x.len() == y.len());
    let n = head.len() as int;
    assert(s.subrange(n, n + x.len()) =~= x);
    assert(s.subrange(n, n + x.len()) =~= y);
    assert(2_000_000_000 * u <= l * u) by (nonlinear_arith)
        requires
            l >= 2_000_000_000,
            u > 0,
    ;
    lemma_sum_error(a.start, a.duration);
    lemma_sum_error(b.start, b.duration);
    law_labels_are_near(end_of(a));
    law_labels_are_near(end_of(b));
    reveal_with_fuel(ten_to, 3);
    let e = end_of(a).value();
    let f = end_of(b).value();
    assert(e * ten_to(2) == 100 * e && f * ten_to(2) == 100 * f) by (nonlinear_arith)
        requires
            ten_to(2) == 100,
    ;
}

/// The names that an export may get.
pub struct OutputNames {
    /// The name of the source without its ending.
    pub stem: String,
    /// What the name says of the export.
    pub suffix: String,
    /// The ending.
    pub extension: String,
    /// Whether a file of the first name may be replaced.
    pub replace_existing: bool,
}

/// The name with a number: the first has none.
pub open spec fn name_of(stem: Seq<char>, suffix: Seq<char>, index: nat, extension: Seq<char>) -> Seq<
    char,
> {
    if index <= 1 {
        stem + "_"@ + suffix + "."@ + extension
    } else {
        stem + "_"@ + suffix + "_"@ + decimal(index) + "."@ + extension
    }
}

/// What to do about a name.
#[derive(Clone, Copy, Debug, PartialEq, Eq, Structural)]
pub enum NameStep {
    /// Use the name with this number.
    Use(u32),
    /// See whether a file has the name with this number.
    Try(u32),
    /// Give up.
    Exhausted,
}

/// What to do first.
pub open spec fn first_name(replace_existing: bool) -> NameStep {
    if replace_existing {
        NameStep::Use(1)
    } else {
        NameStep::Try(1)
    }
}

/// What to do once it is known whether a file has the name with number `index`.
pub open spec fn next_name(index: u32, exists: bool) -> NameStep {
    if !exists {
        NameStep::Use(index)
    } else if index + 1 < NAME_LIMIT {
        NameStep::Try((index + 1) as u32)
    } else {
        NameStep::Exhausted
    }
}

/// The folder of an export.
pub enum OutputFolder {
    /// That of the source.
    Source,
    /// The one that was asked for.
    Chosen(String),
}

/// The name of the folder of an export, if one was asked for.
pub open spec fn asked_folder(output_dir: Seq<char>) -> Option<Seq<char>> {
    if trimmed(output_dir).len() > 0 {
        Some(trimmed(output_dir))
    } else {
        None
    }
}

/// A folder is asked for by a name that is not blank, and the white space around it does not count.
pub proof fn law_blank_name_asks_for_no_folder(output_dir: Seq<char>)
    ensures
        asked_folder(output_dir) is None <==> forall|i: int|
            0 <= i < output_dir.len() ==> is_space(#[trigger] output_dir[i]),
        output_dir.len() > 0 && !is_space(output_dir[0]) && !is_space(output_dir.last())
            ==> asked_folder(output_dir) == Some(output_dir),
{
    law_trimming_takes_only_white_space(output_dir);
    let s = output_dir;
    let (from, to) = choose|from: int, to: int|
        0 <= from <= to <= s.len() && trimmed(s) == #[trigger] s.subrange(from, to) && (forall|
            i: int,
        |
            0 <= i < from ==> is_space(#[trigger] s[i])) && (forall|i: int|
            to <= i < s.len() ==> is_space(#[trigger] s[i]));
    if trimmed(s).len() > 0 {
        assert(trimmed(s)[0] == s[from]);
    } else {
        assert(from == to);
    }
}

/// The folder of an export: the one that was asked for, or that of the source, if it has one.
pub fn output_folder(options: &SpeedOptions, source_has_folder: bool) -> (r: Result<
    OutputFolder,
    String,
>)
    ensures
        match r {
            Ok(OutputFolder::Chosen(dir)) => asked_folder(options.output_dir@) == Some(dir@) && dir@
                == trimmed(options.output_dir@) && dir@.len() > 0,
            Ok(OutputFolder::Source) => trimmed(options.output_dir@).len() == 0
                && source_has_folder,
            Err(e) => trimmed(options.output_dir@).len() == 0 && !source_has_folder && e@
                == "Unable to resolve source folder."@,
        },
{
    let chosen = trim(options.output_dir.as_str());
    if !chosen.as_str().is_empty() {
        Ok(OutputFolder::Chosen(chosen))
    } else if source_has_folder {
        Ok(OutputFolder::Source)
    } else {
        Err("Unable to resolve source folder.".to_string())
    }
}

impl OutputNames {
    /// The names for the export of a part of a video. `stem` is the name of the source without
    /// its ending, where it can be read.
    pub fn new(stem: Option<String>, options: &SpeedOptions, clip: VideoClip) -> (names:
        OutputNames)
        ensures
            names.stem@ == (match stem {
                Some(s) => s@,
                None => "video"@,
            }),
            names.suffix@ == suffix_of(*options, clip),
            names.extension@ == extension_of(options.output_format@),
            names.replace_existing == options.replace_existing,
    {
        let stem = match stem {
            Some(s) => s,
            None => "video".to_string(),
        };
        let timing = if options.use_target_length {
            cat3("target", target_label(options.target_seconds).as_str(), "s")
        } else {
            cat2(speed_label(clip.speed).as_str(), "x")
        };
        let clip_end = clip.start.plus(clip.duration);
        let end_gap = clip.source.minus(clip_end).abs();
        let thousandth = Real { bits: THOUSANDTH };
        let suffix = if thousandth.lt(clip.start) || thousandth.lt(end_gap)
            || options.use_clip_length {
            let mut s = cat5(
                timing.as_str(),
                "_range",
                target_label(clip.start).as_str(),
                "s-",
                target_label(clip_end).as_str(),
            );
            s.append("s");
            s
        } else {
            timing
        };
        OutputNames {
            stem,
            suffix,
            extension: output_extension(options).to_string(),
            replace_existing: options.replace_existing,
        }
    }

    /// The name with number `index`.
    pub fn name(&self, index: u32) -> (r: String)
        ensures
            r@ == name_of(self.stem@, self.suffix@, index as nat, self.extension@),
    {
        let mut s = cat3(self.stem.as_str(), "_", self.suffix.as_str());
        if index > 1 {
            s.append("_");
            s.append(number(index as u64).as_str());
        }
        s.append(".");
        s.append(self.extension.as_str());
        s
    }

    /// What to do first.
    pub fn first(&self) -> (r: NameStep)
        ensures
            r == first_name(self.replace_existing),
    {
        if self.replace_existing {
            NameStep::Use(1)
        } else {
            NameStep::Try(1)
        }
    }

    /// What to do once it is known whether a file has the name with number `index`.
    pub fn next(&self, index: u32, exists: bool) -> (r: NameStep)
        ensures
            r == next_name(index, exists),
    {
        if !exists {
            NameStep::Use(index)
        } else if index < NAME_LIMIT - 1 {
            NameStep::Try(index + 1)
        } else {
            NameStep::Exhausted
        }
    }
}

/// What is said where every name is taken.
pub fn exhausted_message() -> (r: String)
    ensures
        r@ == "Unable to find an available output filename."@,
{
    "Unable to find an available output filename.".to_string()
}

/// Where the search for a name ends, given the numbers of the names that files have.
pub open spec fn searched(taken: Set<nat>, step: NameStep) -> NameStep
    decreases
            (match step {
                NameStep::Try(i) => if i < NAME_LIMIT {
                    NAME_LIMIT - i
                } else {
                    0
                },
                _ => 0,
            }),
{
    match step {
        NameStep::Try(i) => if i < NAME_LIMIT {
            searched(taken, next_name(i, taken.contains(i as nat)))
        } else {
            NameStep::Exhausted
        },
        _ => step,
    }
}

/// Unless files may be replaced, the search ends at the first name that no file has, and gives up
/// only where all of the 9,999 names are taken.
pub proof fn law_search_finds_first_free_name(taken: Set<nat>)
    ensures
        match searched(taken, first_name(false)) {
            NameStep::Use(i) => {
                &&& 1 <= i < 10_000
                &&& !taken.contains(i as nat)
                &&& forall|j: nat| 1 <= j < i ==> taken.contains(j)
            },
            NameStep::Try(_) => false,
            NameStep::Exhausted => forall|j: nat| 1 <= j < 10_000 ==> taken.contains(j),
        },
{
    lemma_search(taken, 1);
}

proof fn lemma_search(taken: Set<nat>, from: u32)
    requires
        1 <= from < NAME_LIMIT,
        forall|j: nat| 1 <= j < from ==> taken.contains(j),
    ensures
        match searched(taken, NameStep::Try(from)) {
            NameStep::Use(i) => {
                &&& 1 <= i < NAME_LIMIT
                &&& !taken.contains(i as nat)
                &&& forall|j: nat| 1 <= j < i ==> taken.contains(j)
            },
            NameStep::Try(_) => false,
            NameStep::Exhausted => forall|j: nat| 1 <= j < NAME_LIMIT ==> taken.contains(j),
        },
    decreases NAME_LIMIT - from,
{
    reveal_with_fuel(searched, 2);
    if taken.contains(from as nat) && from + 1 < NAME_LIMIT {
        lemma_search(taken, (from + 1) as u32);
    }
}

/// Where files may be replaced, the first name is used, whatever files there are.
pub proof fn law_replacing_uses_first_name(taken: Set<nat>)
    ensures
        searched(taken, first_name(true)) == NameStep::Use(1),
{
}

/// A name is that of the source, what it says of the export, the number from the second one on, and the
/// ending.
pub proof fn law_name_holds_its_parts(
    stem: Seq<char>,
    suffix: Seq<char>,
    index: nat,
    extension: Seq<char>,
)
    ensures
        index <= 1 ==> name_of(stem, suffix, index, extension) == stem + "_"@ + suffix + "."@
            + extension,
        index > 1 ==> exists|n: Seq<char>| #[trigger]
            all_digits(n) && digits_value(n) == index && name_of(stem, suffix, index, extension)
                == stem + "_"@ + suffix + "_"@ + n + "."@ + extension,
{
    lemma_decimal_digits(index);
    lemma_decimal_value(index);
    assert(all_digits(decimal(index)));
}

/// Different numbers make different names.
pub proof fn law_names_are_distinct(
    stem: Seq<char>,
    suffix: Seq<char>,
    extension: Seq<char>,
    i: nat,
    j: nat,
)
    requires
        1 <= i,
        1 <= j,
        name_of(stem, suffix, i, extension) == name_of(stem, suffix, j, extension),
    ensures
        i == j,
{
    reveal_strlit("_");
    reveal_strlit(".");
    let a = name_of(stem, suffix, i, extension);
    let b = name_of(stem, suffix, j, extension);
    lemma_decimal_digits(i);
    lemma_decimal_digits(j);
    let head = (stem + "_"@ + suffix).len() as int;
    assert("_"@.len() == 1 && "."@.len() == 1);
    assert(i == 1 ==> a.len() == head + 1 + extension.len());
    assert(j == 1 ==> b.len() == head + 1 + extension.len());
    assert(i > 1 ==> a.len() == head + 2 + decimal(i).len() + extension.len());
    assert(j > 1 ==> b.len() == head + 2 + decimal(j).len() + extension.len());
    if i > 1 && j > 1 {
        let m = decimal(i).len() as int;
        assert(a.subrange(head + 1, head + 1 + m) =~= decimal(i));
        assert(b.subrange(head + 1, head + 1 + m) =~= decimal(j));
        lemma_decimal_injective(i, j);
    }
}

} // verus!
