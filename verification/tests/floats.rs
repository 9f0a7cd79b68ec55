// Floats: fractions, exponents, special values.

use toml_rust_parser::{parse, Table, Value};

fn take_key(map: Table, k: &str) -> Value {
    let (keys, values) = map.into_parts();
    let i = keys.iter().position(|x| x == k).expect("key not found");
    values.into_iter().nth(i).unwrap()
}

/// Helper: parse `x = <float_toml>` and extract the f64 value.
fn parse_float(value_toml: &str) -> Result<f64, toml_rust_parser::ParseError> {
    let input = format!("x = {}", value_toml);
    let doc = parse(&input)?;
    match doc {
        Value::Table(map) => match take_key(map, "x") {
            Value::Float(f) => Ok(f.parse::<f64>().expect("float text")),
            other => panic!("expected Float, got {:?}", other),
        },
        _ => panic!("expected Table"),
    }
}

// -----------------------------------------------------------------------
// 6.1 / 6.7 – Fractional floats
// -----------------------------------------------------------------------

#[test]
fn fractional_one_point_zero() {
    assert_eq!(parse_float("1.0").unwrap(), 1.0_f64);
}

#[test]
fn fractional_negative_one_point_five() {
    assert_eq!(parse_float("-1.5").unwrap(), -1.5_f64);
}

#[test]
fn fractional_pi() {
    assert_eq!(parse_float("3.14").unwrap(), 3.14_f64);
}

// -----------------------------------------------------------------------
// 6.1 / 6.7 – Exponent floats
// -----------------------------------------------------------------------

#[test]
fn exponent_lowercase_e() {
    assert_eq!(parse_float("1e10").unwrap(), 1e10_f64);
}

#[test]
fn exponent_uppercase_e() {
    assert_eq!(parse_float("1E10").unwrap(), 1e10_f64);
}

#[test]
fn exponent_positive_sign() {
    assert_eq!(parse_float("1e+10").unwrap(), 1e10_f64);
}

#[test]
fn exponent_negative_sign() {
    assert_eq!(parse_float("1e-10").unwrap(), 1e-10_f64);
}

// -----------------------------------------------------------------------
// 6.3 – Combined fractional + exponent
// -----------------------------------------------------------------------

#[test]
fn combined_fractional_and_exponent() {
    let f = parse_float("6.626e-34").unwrap();
    assert!((f - 6.626e-34_f64).abs() < 1e-40);
}

// -----------------------------------------------------------------------
// 6.4 – Underscores between digits
// -----------------------------------------------------------------------

#[test]
fn underscores_in_float() {
    let f = parse_float("9_224_617.445_991_228_313").unwrap();
    assert_eq!(f, 9_224_617.445_991_228_313_f64);
}

// -----------------------------------------------------------------------
// 6.5 – Special values: inf, +inf, -inf, nan, +nan, -nan
// -----------------------------------------------------------------------

#[test]
fn special_inf() {
    let f = parse_float("inf").unwrap();
    assert!(f.is_infinite() && f.is_sign_positive());
}

#[test]
fn special_plus_inf() {
    let f = parse_float("+inf").unwrap();
    assert!(f.is_infinite() && f.is_sign_positive());
}

#[test]
fn special_minus_inf() {
    let f = parse_float("-inf").unwrap();
    assert!(f.is_infinite() && f.is_sign_negative());
}

#[test]
fn special_nan() {
    assert!(parse_float("nan").unwrap().is_nan());
}

#[test]
fn special_plus_nan() {
    assert!(parse_float("+nan").unwrap().is_nan());
}

#[test]
fn special_minus_nan() {
    assert!(parse_float("-nan").unwrap().is_nan());
}

// -----------------------------------------------------------------------
// 6.6 – -0.0 and +0.0 (IEEE 754 representations)
// -----------------------------------------------------------------------

#[test]
fn negative_zero() {
    let f = parse_float("-0.0").unwrap();
    assert_eq!(f, 0.0_f64);
    assert!(f.is_sign_negative());
}

#[test]
fn positive_zero() {
    let f = parse_float("+0.0").unwrap();
    assert_eq!(f, 0.0_f64);
    assert!(f.is_sign_positive());
}

// -----------------------------------------------------------------------
// 6.2 – Rejection: decimal point with no digit on one side
// -----------------------------------------------------------------------

#[test]
fn reject_leading_decimal_point() {
    // ".5" – no digit before the decimal point
    assert!(parse_float(".5").is_err());
}

#[test]
fn reject_trailing_decimal_point() {
    // "1." – no digit after the decimal point
    assert!(parse_float("1.").is_err());
}

// -----------------------------------------------------------------------
// 6.1 – Rejection: exponent with no digits
// -----------------------------------------------------------------------

#[test]
fn reject_exponent_no_digits() {
    assert!(parse_float("1e").is_err());
}

#[test]
fn reject_exponent_sign_no_digits() {
    assert!(parse_float("1e+").is_err());
}
