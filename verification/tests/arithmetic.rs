use batchlapse::double::Real;
use batchlapse::notation::fixed;

fn num(x: f64) -> Real {
    Real { bits: x.to_bits() }
}

fn back(x: Real) -> f64 {
    f64::from_bits(x.bits)
}

fn alike(a: f64, b: f64) -> bool {
    a.to_bits() == b.to_bits() || (a.is_nan() && b.is_nan())
}

fn samples() -> Vec<f64> {
    let mut list = vec![
        0.0,
        -0.0,
        1.0,
        -1.0,
        0.5,
        2.0,
        0.1,
        0.94,
        9.5,
        1000.0,
        1e6,
        3.0,
        1.0 / 3.0,
        5e-324,
        -5e-324,
        1e-320,
        f64::MIN_POSITIVE,
        f64::MIN_POSITIVE / 2.0,
        f64::EPSILON,
        1.0 + f64::EPSILON,
        1.0 - f64::EPSILON / 2.0,
        9007199254740991.0,
        9007199254740992.0,
        9007199254740993.0,
        1e300,
        -1e300,
        f64::MAX,
        f64::MIN,
        f64::INFINITY,
        f64::NEG_INFINITY,
        f64::NAN,
    ];
    let mut n: u64 = 12345;
    for _ in 0..60 {
        n = n.wrapping_mul(6364136223846793005).wrapping_add(1442695040888963407);
        list.push(f64::from_bits(n));
        list.push((n >> 40) as f64 / 1024.0);
        list.push((n >> 11) as f64 * 2f64.powi((n % 120) as i32 - 100));
    }
    list
}

#[test]
fn sums_products_and_quotients_are_those_of_doubles() {
    let list = samples();
    for &a in &list {
        for &b in &list {
            assert!(alike(back(num(a).plus(num(b))), a + b), "{a:e} + {b:e}");
            assert!(alike(back(num(a).minus(num(b))), a - b), "{a:e} - {b:e}");
            assert!(alike(back(num(a).times(num(b))), a * b), "{a:e} * {b:e}");
            assert!(alike(back(num(a).over(num(b))), a / b), "{a:e} / {b:e}");
        }
    }
}

#[test]
fn close_numbers_subtract_exactly() {
    let mut n: u64 = 99;
    for _ in 0..20_000 {
        n = n.wrapping_mul(6364136223846793005).wrapping_add(1442695040888963407);
        let a = f64::from_bits(n & 0x7fef_ffff_ffff_ffff);
        let b = f64::from_bits((n & 0x7fef_ffff_ffff_ffff) ^ ((n >> 7) & 0xff_ffff_ffff_ffff));
        assert!(alike(back(num(a).minus(num(b))), a - b), "{a:e} - {b:e}");
        assert!(alike(back(num(a).plus(num(b))), a + b), "{a:e} + {b:e}");
        assert!(alike(back(num(a).over(num(b))), a / b), "{a:e} / {b:e}");
    }
}

#[test]
fn signs_are_turned_and_dropped() {
    for a in samples() {
        assert!(alike(back(num(a).opposite()), -a));
        assert!(alike(back(num(a).abs()), a.abs()));
    }
}

#[test]
fn whole_numbers_become_doubles() {
    let mut n: u64 = 1;
    for _ in 0..2000 {
        n = n.wrapping_mul(6364136223846793005).wrapping_add(1442695040888963407);
        for x in [n, n >> 10, n >> 11, n >> 40, u64::MAX - (n >> 60)] {
            assert!(alike(back(Real::from_whole(x)), x as f64), "{x}");
        }
    }
    assert!(alike(back(Real::from_whole(0)), 0.0));
    assert!(alike(back(Real::from_whole(u64::MAX)), u64::MAX as f64));
}

#[test]
fn doubles_become_whole_numbers() {
    for a in samples() {
        assert_eq!(num(a).floor(), a.floor() as u32, "{a:e}");
        assert_eq!(num(a).round(), a.round() as u64, "{a:e}");
    }
    for k in 0..400 {
        let a = k as f64 / 8.0;
        assert_eq!(num(a).floor(), a.floor() as u32, "{a}");
        assert_eq!(num(a).round(), a.round() as u64, "{a}");
    }
    for a in [4294967295.0, 4294967295.9, 4294967296.0, 18446744073709549568.0, 0.49999999999999994] {
        assert_eq!(num(a).floor(), a.floor() as u32, "{a}");
        assert_eq!(num(a).round(), a.round() as u64, "{a}");
    }
}

#[test]
fn fixed_notation_is_that_of_doubles() {
    assert_eq!(fixed(num(0.125), 2), "0.12");
    assert_eq!(fixed(num(0.375), 2), "0.38");
    assert_eq!(fixed(num(-0.0), 1), "-0.0");
    assert_eq!(fixed(num(f64::NAN), 3), "NaN");
    assert_eq!(fixed(num(f64::NEG_INFINITY), 3), "-inf");
    for a in samples() {
        for decimals in 1..=8usize {
            assert_eq!(fixed(num(a), decimals as u32), format!("{a:.decimals$}"), "{a:e}");
        }
    }
    for k in 0..3000 {
        let a = k as f64 / 1024.0;
        for decimals in [1usize, 2, 3, 6, 8] {
            assert_eq!(fixed(num(a), decimals as u32), format!("{a:.decimals$}"), "{a}");
        }
    }
}

#[test]
fn numbers_are_clamped_as_doubles_are() {
    for a in samples() {
        let clamped = back(num(a).clamp(num(0.2), num(0.95)));
        assert!(alike(clamped, a.clamp(0.2, 0.95)), "{a:e}");
    }
}
