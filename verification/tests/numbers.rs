use batchlapse::commands::tempo_split;
use batchlapse::double::{
    Real, FIVE_HALVES, HALF, HUNDRED, MILLION, NINETEEN_HALVES, ONE, SIXTY, TEN, TENTH, THIRTY,
    THOUSAND, THOUSANDTH, THREE, THREE_HALVES, TWO,
};
use batchlapse::megabytes::format_mb;
use batchlapse::preview::TWENTIETH;
use batchlapse::sizing::{
    EIGHT, LARGEST_GIF_RATIO, LARGEST_RATE_FACTOR, LEAST_GIF_RATIO, LEAST_RATE_FACTOR, LOWEST_RATE,
    PAYLOAD_SHARE, RETRY_SHARE,
};
use batchlapse::text::{
    cat2, cat3, cat5, number, parse, same, same_text_ignoring_case, strip, to_lower, trim,
};

fn num(x: f64) -> Real {
    Real { bits: x.to_bits() }
}

fn samples() -> Vec<f64> {
    vec![
        0.0,
        -0.0,
        1.0,
        -1.0,
        0.5,
        2.0,
        0.1,
        9.5,
        1e-320,
        -1e-320,
        5e-324,
        f64::MIN_POSITIVE,
        f64::MAX,
        f64::MIN,
        f64::INFINITY,
        f64::NEG_INFINITY,
        f64::NAN,
        -f64::NAN,
        0.30000000000000004,
        0.3,
        12345.678,
    ]
}

#[test]
fn named_patterns_are_the_numbers() {
    assert_eq!(THOUSANDTH, 0.001f64.to_bits());
    assert_eq!(TENTH, 0.1f64.to_bits());
    assert_eq!(HALF, 0.5f64.to_bits());
    assert_eq!(ONE, 1.0f64.to_bits());
    assert_eq!(THREE_HALVES, 1.5f64.to_bits());
    assert_eq!(TWO, 2.0f64.to_bits());
    assert_eq!(FIVE_HALVES, 2.5f64.to_bits());
    assert_eq!(THREE, 3.0f64.to_bits());
    assert_eq!(NINETEEN_HALVES, 9.5f64.to_bits());
    assert_eq!(TEN, 10.0f64.to_bits());
    assert_eq!(THIRTY, 30.0f64.to_bits());
    assert_eq!(SIXTY, 60.0f64.to_bits());
    assert_eq!(HUNDRED, 100.0f64.to_bits());
    assert_eq!(THOUSAND, 1000.0f64.to_bits());
    assert_eq!(MILLION, 1_000_000.0f64.to_bits());
    assert_eq!(TWENTIETH, 0.05f64.to_bits());
    assert_eq!(EIGHT, 8.0f64.to_bits());
    assert_eq!(LOWEST_RATE, 64.0f64.to_bits());
    assert_eq!(PAYLOAD_SHARE, 0.94f64.to_bits());
    assert_eq!(RETRY_SHARE, 0.92f64.to_bits());
    assert_eq!(LEAST_RATE_FACTOR, 0.2f64.to_bits());
    assert_eq!(LARGEST_RATE_FACTOR, 0.95f64.to_bits());
    assert_eq!(LEAST_GIF_RATIO, 0.18f64.to_bits());
    assert_eq!(LARGEST_GIF_RATIO, 0.9f64.to_bits());
}

#[test]
fn numbers_compare_as_doubles_do() {
    for a in samples() {
        assert_eq!(num(a).finite(), a.is_finite());
        assert_eq!(num(a).number(), !a.is_nan());
        for b in samples() {
            assert_eq!(num(a).lt(num(b)), a < b, "{a} < {b}");
            assert_eq!(num(a).le(num(b)), a <= b, "{a} <= {b}");
        }
    }
}

#[test]
fn smaller_and_limited_numbers_are_those_of_doubles() {
    for a in samples() {
        for b in samples() {
            let smaller = f64::from_bits(num(a).min(num(b)).bits);
            let expected = a.min(b);
            assert!(smaller == expected || (smaller.is_nan() && expected.is_nan()), "{a} {b}");
            if b >= 0.0 {
                let limited = f64::from_bits(num(a).limit(num(b)).bits);
                let expected = a.clamp(0.0, b);
                assert!(limited == expected || (limited.is_nan() && expected.is_nan()), "{a} {b}");
            }
        }
        let raised = f64::from_bits(num(a).max_zero().bits);
        assert_eq!(raised, a.max(0.0), "{a}");
    }
}

#[test]
fn halving_and_doubling_are_exact() {
    for x in [1.0, 1.5, 2.0, 10.0, 1e300, f64::MAX] {
        assert_eq!(f64::from_bits(num(x).half().bits), x / 2.0);
    }
    for x in [0.9, 0.25, 1e-300, f64::MIN_POSITIVE, 5e-324, 1e-320] {
        assert_eq!(f64::from_bits(num(x).double().bits), x * 2.0);
    }
}

#[test]
fn speeds_split_into_factors_of_two() {
    let split = tempo_split(num(10.0));
    assert_eq!((split.twos, split.halves), (3, 0));
    assert_eq!(split.rest, num(1.25));
    let split = tempo_split(num(2.0));
    assert_eq!((split.twos, split.halves), (0, 0));
    assert_eq!(split.rest, num(2.0));
    let split = tempo_split(num(0.2));
    assert_eq!((split.twos, split.halves), (0, 2));
    assert_eq!(split.rest, num(0.8));
    let split = tempo_split(num(5e-324));
    assert_eq!(split.rest, num(0.5));
    let split = tempo_split(num(-3.0));
    assert_eq!((split.twos, split.halves), (0, 0));
    assert_eq!(split.rest, num(-3.0));
    let split = tempo_split(num(f64::NEG_INFINITY));
    assert_eq!((split.twos, split.halves), (0, 0));
}

#[test]
fn sizes_show_as_in_double_precision() {
    assert_eq!(format_mb(0), "0.00 MB");
    assert_eq!(format_mb(1), "0.00 MB");
    assert_eq!(format_mb(9_500_000), "9.50 MB");
    assert_eq!(format_mb(100_000), "0.10 MB");
    assert_eq!(format_mb(125_000), "0.12 MB");
    assert_eq!(format_mb(375_000), "0.38 MB");
    assert_eq!(format_mb(1_234_567), "1.23 MB");
    let shown = |bytes: u64| format!("{:.2} MB", bytes as f64 / 1_000_000.0);
    for k in 0..4000u64 {
        let tie = 5_000 + 10_000 * k;
        for bytes in [tie - 1, tie, tie + 1] {
            assert_eq!(format_mb(bytes), shown(bytes), "{bytes}");
        }
    }
    let mut bytes: u64 = 1;
    for step in 0..64 {
        for near in [bytes.wrapping_sub(1), bytes, bytes.wrapping_add(1)] {
            assert_eq!(format_mb(near), shown(near), "{near} at {step}");
        }
        bytes = bytes.wrapping_mul(2);
    }
    let mut bytes: u64 = 7;
    for _ in 0..5000 {
        bytes = bytes.wrapping_mul(6364136223846793005).wrapping_add(1442695040888963407);
        assert_eq!(format_mb(bytes), shown(bytes), "{bytes}");
        assert_eq!(format_mb(bytes >> 20), shown(bytes >> 20), "{bytes}");
        assert_eq!(format_mb(bytes >> 40), shown(bytes >> 40), "{bytes}");
    }
    assert_eq!(format_mb(u64::MAX), shown(u64::MAX));
}

#[test]
fn shown_size_is_within_half_a_hundredth() {
    for bytes in [0u64, 4_999, 5_001, 14_999, 15_001, 9_499_999] {
        let shown = format_mb(bytes);
        let digits: u64 = shown.replace(" MB", "").replace('.', "").parse().unwrap();
        let distance = (10_000 * digits).abs_diff(bytes);
        assert!(distance <= 5_000, "{bytes} shown as {shown}");
    }
}

#[test]
fn texts_join_and_compare() {
    assert_eq!(cat2("a", "b"), "ab");
    assert_eq!(cat3("a", "", "c"), "ac");
    assert_eq!(cat5("a", "b", "c", "d", "é"), "abcdé");
    assert!(same("é", "é"));
    assert!(!same("a", "A"));
    assert!(same_text_ignoring_case("WebM-VP9", "webm-vp9"));
    assert!(!same_text_ignoring_case("É", "é"));
    assert_eq!(to_lower("ABC[Éz"), "abc[Éz");
}

#[test]
fn trimming_drops_all_white_space() {
    assert_eq!(trim(" \t\r\n a b \u{3000}\u{a0}"), "a b");
    assert_eq!(trim("   "), "");
    assert_eq!(trim(""), "");
    for n in 0..0x3100u32 {
        if let Some(c) = char::from_u32(n) {
            let text = format!("{c}a{c}");
            assert_eq!(trim(&text), text.trim(), "{n:#x}");
        }
    }
}

#[test]
fn numbers_are_written_and_read_back() {
    for n in [0u64, 7, 10, 99, 100, 65535, 1_000_000, u64::MAX] {
        assert_eq!(number(n), n.to_string());
        assert_eq!(parse(&number(n), u64::MAX), Some(n));
    }
}

#[test]
fn numbers_are_read_as_the_standard_library_reads_them() {
    for text in [
        "", "+", "-", "0", "-0", "+0", "007", "+7", "++7", "7 ", " 7", "65535", "65536", "99999",
        "1_000", "1e3", "٣", "18446744073709551615", "18446744073709551616",
    ] {
        assert_eq!(parse(text, 65535), text.parse::<u16>().ok().map(u64::from), "{text}");
        assert_eq!(parse(text, u64::MAX), text.parse::<u64>().ok(), "{text}");
    }
}

#[test]
fn prefixes_are_stripped() {
    assert_eq!(strip("out_time_ms=5", "out_time_ms="), Some("5".to_string()));
    assert_eq!(strip("out", "out_time_ms="), None);
    assert_eq!(strip("abc", ""), Some("abc".to_string()));
    assert_eq!(strip("abc", "b"), None);
}
