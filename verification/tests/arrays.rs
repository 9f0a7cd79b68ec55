// Arrays: elements, nesting, newlines, comments and trailing commas.

use toml_rust_parser::{parse, Table, Value};

fn take_key(map: Table, k: &str) -> Value {
    let (keys, values) = map.into_parts();
    let i = keys.iter().position(|x| x == k).expect("key not found");
    values.into_iter().nth(i).unwrap()
}

fn float_of(v: &Value) -> f64 {
    match v {
        Value::Float(s) => s.parse::<f64>().expect("float text"),
        other => panic!("expected Float, got {:?}", other),
    }
}

/// Helper: parse `x = <array_toml>` and return the Vec<Value>.
fn parse_array(array_toml: &str) -> Vec<Value> {
    let input = format!("x = {}", array_toml);
    let doc = parse(&input).expect("parse failed");
    match doc {
        Value::Table(map) => match take_key(map, "x") {
            Value::Array(v) => v,
            other => panic!("expected Array, got {:?}", other),
        },
        _ => panic!("expected Table"),
    }
}

// -----------------------------------------------------------------------
// 9.1 – Empty array
// -----------------------------------------------------------------------

#[test]
fn empty_array() {
    let arr = parse_array("[]");
    assert!(arr.is_empty());
}

// -----------------------------------------------------------------------
// 9.1 – Single element array
// -----------------------------------------------------------------------

#[test]
fn single_integer_element() {
    let arr = parse_array("[42]");
    assert_eq!(arr.len(), 1);
    assert_eq!(arr[0], Value::Integer(42));
}

#[test]
fn single_string_element() {
    let arr = parse_array(r#"["hello"]"#);
    assert_eq!(arr.len(), 1);
    assert_eq!(arr[0], Value::String("hello".to_string()));
}

// -----------------------------------------------------------------------
// 9.1 – Multiple elements of the same type
// -----------------------------------------------------------------------

#[test]
fn multiple_integers() {
    let arr = parse_array("[1, 2, 3]");
    assert_eq!(arr.len(), 3);
    assert_eq!(arr[0], Value::Integer(1));
    assert_eq!(arr[1], Value::Integer(2));
    assert_eq!(arr[2], Value::Integer(3));
}

#[test]
fn multiple_strings() {
    let arr = parse_array(r#"["a", "b", "c"]"#);
    assert_eq!(arr.len(), 3);
    assert_eq!(arr[0], Value::String("a".to_string()));
    assert_eq!(arr[1], Value::String("b".to_string()));
    assert_eq!(arr[2], Value::String("c".to_string()));
}

#[test]
fn multiple_booleans() {
    let arr = parse_array("[true, false, true]");
    assert_eq!(arr.len(), 3);
    assert_eq!(arr[0], Value::Boolean(true));
    assert_eq!(arr[1], Value::Boolean(false));
    assert_eq!(arr[2], Value::Boolean(true));
}

// -----------------------------------------------------------------------
// 9.2 – Mixed types in the same array
// -----------------------------------------------------------------------

#[test]
fn mixed_integer_and_string() {
    let arr = parse_array(r#"[1, "two", 3]"#);
    assert_eq!(arr.len(), 3);
    assert_eq!(arr[0], Value::Integer(1));
    assert_eq!(arr[1], Value::String("two".to_string()));
    assert_eq!(arr[2], Value::Integer(3));
}

#[test]
fn mixed_integer_float_boolean_string() {
    let arr = parse_array(r#"[1, 2.5, true, "hello"]"#);
    assert_eq!(arr.len(), 4);
    assert_eq!(arr[0], Value::Integer(1));
    assert_eq!(float_of(&arr[1]), 2.5);
    assert_eq!(arr[2], Value::Boolean(true));
    assert_eq!(arr[3], Value::String("hello".to_string()));
}

// -----------------------------------------------------------------------
// 9.3 – Trailing comma after last element
// -----------------------------------------------------------------------

#[test]
fn trailing_comma_single_element() {
    let arr = parse_array("[1,]");
    assert_eq!(arr.len(), 1);
    assert_eq!(arr[0], Value::Integer(1));
}

#[test]
fn trailing_comma_multiple_elements() {
    let arr = parse_array("[1, 2, 3,]");
    assert_eq!(arr.len(), 3);
    assert_eq!(arr[0], Value::Integer(1));
    assert_eq!(arr[1], Value::Integer(2));
    assert_eq!(arr[2], Value::Integer(3));
}

// -----------------------------------------------------------------------
// 9.5 – Nested arrays (arrays of arrays)
// -----------------------------------------------------------------------

#[test]
fn nested_array_of_integers() {
    let arr = parse_array("[[1, 2], [3, 4]]");
    assert_eq!(arr.len(), 2);
    assert_eq!(arr[0], Value::Array(vec![Value::Integer(1), Value::Integer(2)]));
    assert_eq!(arr[1], Value::Array(vec![Value::Integer(3), Value::Integer(4)]));
}

#[test]
fn nested_array_empty_inner() {
    let arr = parse_array("[[], []]");
    assert_eq!(arr.len(), 2);
    assert_eq!(arr[0], Value::Array(vec![]));
    assert_eq!(arr[1], Value::Array(vec![]));
}

#[test]
fn deeply_nested_array() {
    let arr = parse_array("[[[1]]]");
    assert_eq!(arr.len(), 1);
    let inner1 = match &arr[0] {
        Value::Array(v) => v,
        _ => panic!("expected Array"),
    };
    assert_eq!(inner1.len(), 1);
    let inner2 = match &inner1[0] {
        Value::Array(v) => v,
        _ => panic!("expected Array"),
    };
    assert_eq!(inner2, &vec![Value::Integer(1)]);
}

// -----------------------------------------------------------------------
// 9.4 – Multi-line arrays with newlines between elements
// -----------------------------------------------------------------------

#[test]
fn multiline_array_newlines_between_elements() {
    let input = "x = [\n  1,\n  2,\n  3\n]";
    let arr = match parse(input).unwrap() {
        Value::Table(m) => match take_key(m, "x") {
            Value::Array(v) => v,
            _ => panic!(),
        },
        _ => panic!(),
    };
    assert_eq!(arr.len(), 3);
    assert_eq!(arr[0], Value::Integer(1));
    assert_eq!(arr[1], Value::Integer(2));
    assert_eq!(arr[2], Value::Integer(3));
}

#[test]
fn multiline_array_trailing_comma_with_newline() {
    let input = "x = [\n  1,\n  2,\n]";
    let arr = match parse(input).unwrap() {
        Value::Table(m) => match take_key(m, "x") {
            Value::Array(v) => v,
            _ => panic!(),
        },
        _ => panic!(),
    };
    assert_eq!(arr.len(), 2);
    assert_eq!(arr[0], Value::Integer(1));
    assert_eq!(arr[1], Value::Integer(2));
}

// -----------------------------------------------------------------------
// 9.4 – Arrays with comments between elements
// -----------------------------------------------------------------------

#[test]
fn array_with_comment_between_elements() {
    let input = "x = [\n  1, # first\n  2, # second\n  3  # third\n]";
    let arr = match parse(input).unwrap() {
        Value::Table(m) => match take_key(m, "x") {
            Value::Array(v) => v,
            _ => panic!(),
        },
        _ => panic!(),
    };
    assert_eq!(arr.len(), 3);
    assert_eq!(arr[0], Value::Integer(1));
    assert_eq!(arr[1], Value::Integer(2));
    assert_eq!(arr[2], Value::Integer(3));
}

#[test]
fn array_with_comment_after_trailing_comma() {
    let input = "x = [\n  1,\n  2, # last element\n]";
    let arr = match parse(input).unwrap() {
        Value::Table(m) => match take_key(m, "x") {
            Value::Array(v) => v,
            _ => panic!(),
        },
        _ => panic!(),
    };
    assert_eq!(arr.len(), 2);
    assert_eq!(arr[0], Value::Integer(1));
    assert_eq!(arr[1], Value::Integer(2));
}

#[test]
fn array_comment_before_first_element() {
    let input = "x = [\n  # header comment\n  1,\n  2\n]";
    let arr = match parse(input).unwrap() {
        Value::Table(m) => match take_key(m, "x") {
            Value::Array(v) => v,
            _ => panic!(),
        },
        _ => panic!(),
    };
    assert_eq!(arr.len(), 2);
    assert_eq!(arr[0], Value::Integer(1));
    assert_eq!(arr[1], Value::Integer(2));
}
