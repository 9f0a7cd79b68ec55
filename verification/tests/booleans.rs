// Booleans.

use toml_rust_parser::parse;
use toml_rust_parser::{Table, Value};

fn take_key(map: Table, k: &str) -> Value {
    let (keys, values) = map.into_parts();
    let i = keys.iter().position(|x| x == k).expect("key not found");
    values.into_iter().nth(i).unwrap()
}

fn parse_bool(value_toml: &str) -> Result<bool, toml_rust_parser::ParseError> {
    let input = format!("x = {}", value_toml);
    let doc = parse(&input)?;
    match doc {
        Value::Table(map) => match take_key(map, "x") {
            Value::Boolean(b) => Ok(b),
            other => panic!("expected Boolean, got {:?}", other),
        },
        _ => panic!("expected Table"),
    }
}

// -----------------------------------------------------------------------
// 7.1 – `true` parses to Value::Boolean(true)
// -----------------------------------------------------------------------

#[test]
fn true_parses_to_boolean_true() {
    assert_eq!(parse_bool("true").unwrap(), true);
}

// -----------------------------------------------------------------------
// 7.2 – `false` parses to Value::Boolean(false)
// -----------------------------------------------------------------------

#[test]
fn false_parses_to_boolean_false() {
    assert_eq!(parse_bool("false").unwrap(), false);
}

// -----------------------------------------------------------------------
// 7.3 – Case-sensitivity: mixed/upper-case variants are rejected
// -----------------------------------------------------------------------

#[test]
fn true_capitalized_rejected() {
    assert!(parse_bool("True").is_err());
}

#[test]
fn true_all_caps_rejected() {
    assert!(parse_bool("TRUE").is_err());
}

#[test]
fn false_capitalized_rejected() {
    assert!(parse_bool("False").is_err());
}

#[test]
fn false_all_caps_rejected() {
    assert!(parse_bool("FALSE").is_err());
}

#[test]
fn true_mixed_case_rejected() {
    assert!(parse_bool("tRuE").is_err());
}
