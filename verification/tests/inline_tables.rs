// Inline tables.

use toml_rust_parser::{parse, Table, Value};

fn copy_value(v: &Value) -> Value {
    match v {
        Value::String(s) => Value::String(s.clone()),
        Value::Integer(n) => Value::Integer(*n),
        Value::Float(s) => Value::Float(s.clone()),
        Value::Boolean(b) => Value::Boolean(*b),
        Value::OffsetDateTime(d) => Value::OffsetDateTime(d.clone()),
        Value::LocalDateTime(d) => Value::LocalDateTime(d.clone()),
        Value::LocalDate(d) => Value::LocalDate(d.clone()),
        Value::LocalTime(t) => Value::LocalTime(t.clone()),
        Value::Array(a) => Value::Array(a.iter().map(copy_value).collect()),
        Value::Table(t) => {
            let mut out = Table::new();
            for i in 0..t.len() {
                out.insert(t.key_at(i).clone(), copy_value(t.value_at(i)));
            }
            Value::Table(out)
        }
    }
}

fn keys_of(m: &Table) -> Vec<&str> {
    (0..m.len()).map(|i| m.key_at(i).as_str()).collect()
}

// Helper: parse and extract a top-level key as Value.
fn get_key(doc: &Value, key: &str) -> Value {
    match doc {
        Value::Table(m) => m.get(key).map(copy_value).expect("key not found"),
        _ => panic!("expected Table at root"),
    }
}

// -----------------------------------------------------------------------
// 11.1 – Valid inline table: single key/value pair
// -----------------------------------------------------------------------

#[test]
fn valid_single_pair() {
    let doc = parse("t = {key = \"value\"}").unwrap();
    match get_key(&doc, "t") {
        Value::Table(m) => {
            assert_eq!(m.get("key"), Some(&Value::String("value".to_string())));
        }
        other => panic!("expected Table, got {:?}", other),
    }
}

// -----------------------------------------------------------------------
// 11.1 – Empty inline table
// -----------------------------------------------------------------------

#[test]
fn empty_inline_table() {
    let doc = parse("t = {}").unwrap();
    match get_key(&doc, "t") {
        Value::Table(m) => assert!(m.is_empty()),
        other => panic!("expected empty Table, got {:?}", other),
    }
}

// -----------------------------------------------------------------------
// 11.1 – Multiple key/value pairs
// -----------------------------------------------------------------------

#[test]
fn multiple_pairs() {
    let doc = parse("t = {a = 1, b = 2}").unwrap();
    match get_key(&doc, "t") {
        Value::Table(m) => {
            assert_eq!(m.get("a"), Some(&Value::Integer(1)));
            assert_eq!(m.get("b"), Some(&Value::Integer(2)));
        }
        other => panic!("expected Table, got {:?}", other),
    }
}

// -----------------------------------------------------------------------
// 11.2 – Trailing comma rejection
// -----------------------------------------------------------------------

#[test]
fn trailing_comma_rejected() {
    assert!(parse("t = {a = 1,}").is_err());
}

// -----------------------------------------------------------------------
// 11.3 – Newline rejection
// -----------------------------------------------------------------------

#[test]
fn newline_inside_inline_table_rejected() {
    let input = "t = {a = 1,\nb = 2}";
    assert!(parse(input).is_err());
}

#[test]
fn newline_before_closing_brace_rejected() {
    let input = "t = {a = 1\n}";
    assert!(parse(input).is_err());
}

// -----------------------------------------------------------------------
// 11.4 – Duplicate key rejection
// -----------------------------------------------------------------------

#[test]
fn duplicate_key_rejected() {
    assert!(parse("t = {a = 1, a = 2}").is_err());
}

// -----------------------------------------------------------------------
// 11.5 – Extension rejection: [x] after x = {a = 1}
// -----------------------------------------------------------------------

#[test]
fn extension_via_table_header_rejected() {
    let input = "x = {a = 1}\n[x]\nb = 2\n";
    assert!(parse(input).is_err());
}

#[test]
fn extension_via_dotted_key_rejected() {
    let input = "x = {a = 1}\nx.b = 2\n";
    assert!(parse(input).is_err());
}

// -----------------------------------------------------------------------
// 11.1 – Nested inline tables
// -----------------------------------------------------------------------

#[test]
fn nested_inline_tables() {
    let doc = parse("t = {a = {b = 1}}").unwrap();
    match get_key(&doc, "t") {
        Value::Table(outer) => match outer.get("a") {
            Some(Value::Table(inner)) => {
                assert_eq!(inner.get("b"), Some(&Value::Integer(1)));
            }
            other => panic!("expected inner Table, got {:?}", other),
        },
        other => panic!("expected outer Table, got {:?}", other),
    }
}

// -----------------------------------------------------------------------
// 11.1 – Inline table value is Value::Table(IndexMap)
// -----------------------------------------------------------------------

#[test]
fn inline_table_is_indexmap() {
    let doc = parse("t = {x = 1, y = 2}").unwrap();
    match get_key(&doc, "t") {
        Value::Table(m) => {
            let keys: Vec<&str> = keys_of(&m);
            assert_eq!(keys, vec!["x", "y"]);
        }
        other => panic!("expected Table, got {:?}", other),
    }
}
