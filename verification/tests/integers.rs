// Integers: decimal, hexadecimal, octal, binary, signs, underscores and range.

use toml_rust_parser::{parse, Table, Value};

fn take_key(map: Table, k: &str) -> Value {
    let (keys, values) = map.into_parts();
    let i = keys.iter().position(|x| x == k).expect("key not found");
    values.into_iter().nth(i).unwrap()
}

/// Helper: parse `x = <integer_toml>` and return the i64 value.
fn parse_int(value_toml: &str) -> Result<i64, toml_rust_parser::ParseError> {
    let input = format!("x = {}", value_toml);
    let doc = parse(&input)?;
    match doc {
        Value::Table(map) => match take_key(map, "x") {
            Value::Integer(n) => Ok(n),
            other => panic!("expected Integer, got {:?}", other),
        },
        _ => panic!("expected Table"),
    }
}

// -----------------------------------------------------------------------
// 5.1 – Decimal integers with optional sign
// -----------------------------------------------------------------------

#[test]
fn decimal_positive() {
    assert_eq!(parse_int("42").unwrap(), 42);
}

#[test]
fn decimal_negative() {
    assert_eq!(parse_int("-42").unwrap(), -42);
}

#[test]
fn decimal_zero() {
    assert_eq!(parse_int("0").unwrap(), 0);
}

#[test]
fn decimal_plus_zero() {
    assert_eq!(parse_int("+0").unwrap(), 0);
}

#[test]
fn decimal_minus_zero() {
    assert_eq!(parse_int("-0").unwrap(), 0);
}

#[test]
fn decimal_explicit_plus_sign() {
    assert_eq!(parse_int("+99").unwrap(), 99);
}

#[test]
fn decimal_large_positive() {
    assert_eq!(parse_int("1000000").unwrap(), 1_000_000);
}

// -----------------------------------------------------------------------
// 5.2 – Leading zero rejection
// -----------------------------------------------------------------------

#[test]
fn decimal_leading_zero_rejected() {
    assert!(parse_int("01").is_err());
}

#[test]
fn decimal_leading_zero_multi_rejected() {
    assert!(parse_int("007").is_err());
}

#[test]
fn decimal_leading_zero_negative_rejected() {
    assert!(parse_int("-01").is_err());
}

// -----------------------------------------------------------------------
// 5.3 – Hexadecimal integers (0x prefix, case-insensitive)
// -----------------------------------------------------------------------

#[test]
fn hex_lowercase() {
    assert_eq!(parse_int("0xdeadbeef").unwrap(), 0xdeadbeef_i64);
}

#[test]
fn hex_uppercase() {
    assert_eq!(parse_int("0xDEADBEEF").unwrap(), 0xDEADBEEF_i64);
}

#[test]
fn hex_mixed_case() {
    assert_eq!(parse_int("0xDeAdBeEf").unwrap(), 0xDeAdBeEf_i64);
}

#[test]
fn hex_zero() {
    assert_eq!(parse_int("0x0").unwrap(), 0);
}

#[test]
fn hex_simple() {
    assert_eq!(parse_int("0xff").unwrap(), 255);
}

// -----------------------------------------------------------------------
// 5.4 – Octal integers (0o prefix)
// -----------------------------------------------------------------------

#[test]
fn octal_simple() {
    assert_eq!(parse_int("0o17").unwrap(), 15);
}

#[test]
fn octal_zero() {
    assert_eq!(parse_int("0o0").unwrap(), 0);
}

#[test]
fn octal_larger() {
    assert_eq!(parse_int("0o755").unwrap(), 0o755_i64);
}

// -----------------------------------------------------------------------
// 5.5 – Binary integers (0b prefix)
// -----------------------------------------------------------------------

#[test]
fn binary_simple() {
    assert_eq!(parse_int("0b1010").unwrap(), 10);
}

#[test]
fn binary_zero() {
    assert_eq!(parse_int("0b0").unwrap(), 0);
}

#[test]
fn binary_all_ones() {
    assert_eq!(parse_int("0b1111").unwrap(), 15);
}

// -----------------------------------------------------------------------
// 5.6 – + prefix rejected on non-decimal integers
// -----------------------------------------------------------------------

#[test]
fn hex_plus_prefix_rejected() {
    assert!(parse_int("+0xff").is_err());
}

#[test]
fn octal_plus_prefix_rejected() {
    assert!(parse_int("+0o7").is_err());
}

#[test]
fn binary_plus_prefix_rejected() {
    assert!(parse_int("+0b1").is_err());
}

// -----------------------------------------------------------------------
// 5.7 – Leading zeros allowed in non-decimal digit portion (after prefix)
// -----------------------------------------------------------------------

#[test]
fn hex_leading_zeros_in_digits_allowed() {
    assert_eq!(parse_int("0x00ff").unwrap(), 255);
}

#[test]
fn octal_leading_zeros_in_digits_allowed() {
    assert_eq!(parse_int("0o007").unwrap(), 7);
}

#[test]
fn binary_leading_zeros_in_digits_allowed() {
    assert_eq!(parse_int("0b0001").unwrap(), 1);
}

// -----------------------------------------------------------------------
// 5.8 – Underscores as visual separators
// -----------------------------------------------------------------------

#[test]
fn decimal_underscore_separator() {
    assert_eq!(parse_int("1_000_000").unwrap(), 1_000_000);
}

#[test]
fn decimal_underscore_single() {
    assert_eq!(parse_int("1_0").unwrap(), 10);
}

#[test]
fn hex_underscore_separator() {
    assert_eq!(parse_int("0xdead_beef").unwrap(), 0xdeadbeef_i64);
}

#[test]
fn octal_underscore_separator() {
    assert_eq!(parse_int("0o7_5_5").unwrap(), 0o755_i64);
}

#[test]
fn binary_underscore_separator() {
    assert_eq!(parse_int("0b1010_0101").unwrap(), 0b10100101_i64);
}

// -----------------------------------------------------------------------
// 5.9 – Invalid underscore placement
// -----------------------------------------------------------------------

#[test]
fn decimal_underscore_at_start_rejected() {
    assert!(parse_int("_1000").is_err());
}

#[test]
fn decimal_underscore_at_end_rejected() {
    assert!(parse_int("1000_").is_err());
}

#[test]
fn decimal_double_underscore_rejected() {
    assert!(parse_int("1__000").is_err());
}

#[test]
fn hex_underscore_adjacent_to_prefix_rejected() {
    // underscore immediately after 0x prefix
    assert!(parse_int("0x_ff").is_err());
}

#[test]
fn hex_underscore_at_end_rejected() {
    assert!(parse_int("0xff_").is_err());
}

#[test]
fn hex_double_underscore_rejected() {
    assert!(parse_int("0xff__00").is_err());
}

#[test]
fn octal_underscore_adjacent_to_prefix_rejected() {
    assert!(parse_int("0o_7").is_err());
}

#[test]
fn binary_underscore_adjacent_to_prefix_rejected() {
    assert!(parse_int("0b_1").is_err());
}

// -----------------------------------------------------------------------
// 5.10 / 5.11 – i64 range: overflow and boundary values
// -----------------------------------------------------------------------

#[test]
fn i64_max_parses_successfully() {
    // i64::MAX = 9223372036854775807
    assert_eq!(parse_int("9223372036854775807").unwrap(), i64::MAX);
}

#[test]
fn i64_min_parses_successfully() {
    // i64::MIN = -9223372036854775808
    assert_eq!(parse_int("-9223372036854775808").unwrap(), i64::MIN);
}

#[test]
fn overflow_positive_rejected() {
    // i64::MAX + 1
    assert!(parse_int("9223372036854775808").is_err());
}

#[test]
fn overflow_negative_rejected() {
    // i64::MIN - 1
    assert!(parse_int("-9223372036854775809").is_err());
}

#[test]
fn overflow_very_large_rejected() {
    assert!(parse_int("99999999999999999999").is_err());
}
