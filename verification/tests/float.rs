use lsh::float::{parse_float_parts, FloatParts};

fn finite(negative: bool, mantissa: u64, exponent: i32) -> Option<FloatParts> {
    Some(FloatParts::Finite { negative, mantissa, exponent })
}

fn p(s: &str) -> Option<FloatParts> {
    parse_float_parts(s.as_bytes())
}

#[test]
fn float_parts_integers() {
    assert_eq!(p("123"), finite(false, 123, 0));
    assert_eq!(p("456"), finite(false, 456, 0));
    assert_eq!(p("42"), finite(false, 42, 0));
    assert_eq!(p("007"), finite(false, 7, 0));
    assert_eq!(p("-456"), finite(true, 456, 0));
    assert_eq!(p("+42"), finite(false, 42, 0));
}

#[test]
fn float_parts_decimals() {
    assert_eq!(p("3.14"), finite(false, 314, -2));
    assert_eq!(p("0.5"), finite(false, 5, -1));
    assert_eq!(p("-3.14"), finite(true, 314, -2));
    assert_eq!(p("0.0"), finite(false, 0, -1));
    assert_eq!(p(".5"), finite(false, 5, -1));
    assert_eq!(p("5."), finite(false, 5, 0));
}

#[test]
fn float_parts_scientific() {
    assert_eq!(p("100"), finite(false, 100, 0));
    assert_eq!(p("1e3"), finite(false, 1, 3));
    assert_eq!(p("2.5E10"), finite(false, 25, 9));
    assert_eq!(p("2.5e-10"), finite(false, 25, -11));
    assert_eq!(p("1.5e-3"), finite(false, 15, -4));
    assert_eq!(p("1e0"), finite(false, 1, 0));
    assert_eq!(p("1e+2"), finite(false, 1, 2));
    // The exponent saturates.
    assert_eq!(p("1e99999999999"), finite(false, 1, i32::MAX));
    assert_eq!(p("1e-99999999999"), finite(false, 1, i32::MIN + 1));
}

#[test]
fn float_parts_special_values() {
    assert_eq!(p("inf"), Some(FloatParts::Infinite { negative: false }));
    assert_eq!(p("-inf"), Some(FloatParts::Infinite { negative: true }));
    assert_eq!(p("+infinity"), Some(FloatParts::Infinite { negative: false }));
    assert_eq!(p("Inf"), Some(FloatParts::Infinite { negative: false }));
    assert_eq!(p("INFINITY"), Some(FloatParts::Infinite { negative: false }));
    assert_eq!(p("NaN"), Some(FloatParts::NaN));
    assert_eq!(p("nan"), Some(FloatParts::NaN));
    assert_eq!(p("NAN"), Some(FloatParts::NaN));
    assert_eq!(p("infin"), None);
}

#[test]
fn float_parts_many_digits() {
    // Digits past the 19th only scale the value.
    assert_eq!(p("12345678901234567890"), finite(false, 1234567890123456789, 1));
    assert_eq!(p("0.12345678901234567890"), finite(false, 1234567890123456789, -19));
}

#[test]
fn float_parts_errors() {
    for s in ["", "+", "-", ".", "1e+", "1e-", "abc", "1.2.3", "--1", "1e2e3", "1e", "e5", " 1", "1 "] {
        assert_eq!(p(s), None, "{s:?}");
    }
}

/// The value the parts stand for, computed as `lshc` does: the mantissa scaled by a
/// power of ten (from a small table where it fits).
fn value_of(parts: FloatParts) -> f64 {
    match parts {
        FloatParts::Infinite { negative } => {
            if negative {
                f64::NEG_INFINITY
            } else {
                f64::INFINITY
            }
        }
        FloatParts::NaN => f64::NAN,
        FloatParts::Finite { negative, mantissa, exponent } => {
            let mut value = mantissa as f64;
            if exponent != 0 {
                const TABLE: [f64; 8] = [1e-3, 1e-2, 1e-1, 1e0, 1e1, 1e2, 1e3, 1e4];
                value *= match usize::try_from(exponent as i64 + 3).ok().and_then(|i| TABLE.get(i)) {
                    Some(&v) => v,
                    None => 10f64.powi(exponent),
                };
            }
            if negative {
                -value
            } else {
                value
            }
        }
    }
}

/// Asserts that the parts of `s` stand for `expected` within 1 ULP.
fn approx(s: &str, expected: f64) {
    let got = value_of(p(s).unwrap_or_else(|| panic!("no parts for {:?}", s)));
    let diff = (got.to_bits() as i64).wrapping_sub(expected.to_bits() as i64).unsigned_abs();
    assert!(diff <= 1, "more than 1 ULP off for {:?}: got={}, expected={}", s, got, expected);
}

#[test]
fn cross_check_stdlib() {
    let cases = [
        "0", "1", "-1", "0.5", "123.456", "1e10", "1e-10", "3.14", "2.5E10", "2.5e-10", "0.0015", "1000000",
        "99.99", "0.001", "1e22", "-0.0", "0.1", "0.2", "0.3",
    ];
    for s in cases {
        approx(s, s.parse().unwrap());
    }
}

/// The value of `s`, which must parse.
fn pv(s: &str) -> f64 {
    value_of(p(s).unwrap_or_else(|| panic!("no parts for {:?}", s)))
}

fn fail(s: &str) {
    assert!(p(s).is_none(), "expected None for {:?}", s);
}

#[test]
fn integers() {
    assert_eq!(pv("0"), 0.0);
    assert_eq!(pv("1"), 1.0);
    assert_eq!(pv("123"), 123.0);
    assert_eq!(pv("007"), 7.0);
    assert_eq!(pv("-456"), -456.0);
    assert_eq!(pv("+42"), 42.0);
}

#[test]
fn decimals() {
    assert_eq!(pv("3.14"), 3.14);
    assert_eq!(pv("0.5"), 0.5);
    assert_eq!(pv(".5"), 0.5);
    assert_eq!(pv("5."), 5.0);
    assert_eq!(pv("-3.14"), -3.14);
    assert_eq!(pv("0.0"), 0.0);
}

#[test]
fn scientific() {
    assert_eq!(pv("1e3"), 1e3);
    assert_eq!(pv("2.5E10"), 2.5e10);
    approx("2.5e-10", 2.5e-10);
    approx("1.5e-3", 0.0015);
    assert_eq!(pv("1e0"), 1.0);
    assert_eq!(pv("1e+2"), 100.0);
}

#[test]
fn special_values() {
    assert_eq!(pv("inf"), f64::INFINITY);
    assert_eq!(pv("-inf"), f64::NEG_INFINITY);
    assert_eq!(pv("+infinity"), f64::INFINITY);
    assert_eq!(pv("Inf"), f64::INFINITY);
    assert_eq!(pv("INFINITY"), f64::INFINITY);
    assert!(pv("NaN").is_nan());
    assert!(pv("nan").is_nan());
    assert!(pv("NAN").is_nan());
}

#[test]
fn many_digits() {
    let v = pv("12345678901234567890");
    assert!((v - 12345678901234567890.0f64).abs() / v < 1e-15);
}

#[test]
fn errors() {
    fail("");
    fail("+");
    fail("-");
    fail(".");
    fail("e5");
    fail("1e");
    fail("1e+");
    fail("1e-");
    fail("abc");
    fail(" 1");
    fail("1 ");
    fail("1.2.3");
    fail("--1");
    fail("1e2e3");
}
