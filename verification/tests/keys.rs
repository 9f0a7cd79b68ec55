// Keys: bare, quoted, dotted, and the rules on duplicates.

use toml_rust_parser::{parse, Table, Value};

// Helper: extract a nested value by path from a Table.
fn get<'a>(v: &'a Value, key: &str) -> &'a Value {
    match v {
        Value::Table(m) => m.get(key).unwrap_or_else(|| panic!("key '{}' not found", key)),
        _ => panic!("expected Table"),
    }
}

// -----------------------------------------------------------------------
// 3.1 – Bare keys: [A-Za-z0-9_-]+ characters are valid
// -----------------------------------------------------------------------

#[test]
fn bare_key_letters() {
    let doc = parse("abcXYZ = 1\n").unwrap();
    assert_eq!(get(&doc, "abcXYZ"), &Value::Integer(1));
}

#[test]
fn bare_key_digits() {
    let doc = parse("key123 = 2\n").unwrap();
    assert_eq!(get(&doc, "key123"), &Value::Integer(2));
}

#[test]
fn bare_key_underscore_and_dash() {
    let doc = parse("my_key-name = 3\n").unwrap();
    assert_eq!(get(&doc, "my_key-name"), &Value::Integer(3));
}

#[test]
fn bare_key_all_valid_chars() {
    let doc = parse("A-Z_a-z_0-9 = true\n").unwrap();
    assert_eq!(get(&doc, "A-Z_a-z_0-9"), &Value::Boolean(true));
}

// -----------------------------------------------------------------------
// 3.2 – Quoted keys: basic string and literal string as keys
// -----------------------------------------------------------------------

#[test]
fn quoted_key_basic_string() {
    let doc = parse("\"my key\" = \"hello\"\n").unwrap();
    assert_eq!(get(&doc, "my key"), &Value::String("hello".to_string()));
}

#[test]
fn quoted_key_literal_string() {
    let doc = parse("'my-key' = 42\n").unwrap();
    assert_eq!(get(&doc, "my-key"), &Value::Integer(42));
}

#[test]
fn quoted_key_with_special_chars() {
    let doc = parse("\"key with spaces\" = true\n").unwrap();
    assert_eq!(get(&doc, "key with spaces"), &Value::Boolean(true));
}

// -----------------------------------------------------------------------
// 3.4 – Empty quoted key: "" = "value" is valid
// -----------------------------------------------------------------------

#[test]
fn empty_quoted_key_basic() {
    let doc = parse("\"\" = \"value\"\n").unwrap();
    assert_eq!(get(&doc, ""), &Value::String("value".to_string()));
}

#[test]
fn empty_quoted_key_literal() {
    let doc = parse("'' = 99\n").unwrap();
    assert_eq!(get(&doc, ""), &Value::Integer(99));
}

// -----------------------------------------------------------------------
// 3.5 – Dotted keys: a.b.c = 1 creates nested tables
// -----------------------------------------------------------------------

#[test]
fn dotted_key_two_levels() {
    let doc = parse("a.b = 1\n").unwrap();
    let a = get(&doc, "a");
    assert_eq!(get(a, "b"), &Value::Integer(1));
}

#[test]
fn dotted_key_three_levels() {
    let doc = parse("a.b.c = 1\n").unwrap();
    let a = get(&doc, "a");
    let b = get(a, "b");
    assert_eq!(get(b, "c"), &Value::Integer(1));
}

#[test]
fn dotted_key_creates_table_structure() {
    let doc = parse("a.b = 1\n").unwrap();
    match get(&doc, "a") {
        Value::Table(_) => {}
        other => panic!("expected Table for 'a', got {:?}", other),
    }
}

// -----------------------------------------------------------------------
// 3.6 – Whitespace around dot: a . b = 1 is equivalent to a.b = 1
// -----------------------------------------------------------------------

#[test]
fn dotted_key_whitespace_around_dot() {
    let doc = parse("a . b = 1\n").unwrap();
    let a = get(&doc, "a");
    assert_eq!(get(a, "b"), &Value::Integer(1));
}

#[test]
fn dotted_key_whitespace_around_dot_equivalent() {
    let doc1 = parse("a.b = 42\n").unwrap();
    let doc2 = parse("a . b = 42\n").unwrap();
    assert_eq!(doc1, doc2);
}

// -----------------------------------------------------------------------
// 3.9 – Key/quoted-key equivalence: `key` and `"key"` refer to the same entry
// -----------------------------------------------------------------------

#[test]
fn bare_and_quoted_key_same_entry() {
    // Defining `key` and then `"key"` should be a duplicate error
    let input = "key = 1\n\"key\" = 2\n";
    assert!(parse(input).is_err(), "duplicate key should be rejected");
}

#[test]
fn quoted_key_accesses_same_as_bare() {
    // A value set with a bare key is accessible under the same string
    let doc = parse("name = \"Alice\"\n").unwrap();
    assert_eq!(get(&doc, "name"), &Value::String("Alice".to_string()));
    // And a value set with a quoted key is accessible under the same string
    let doc2 = parse("\"name\" = \"Bob\"\n").unwrap();
    assert_eq!(get(&doc2, "name"), &Value::String("Bob".to_string()));
}

// -----------------------------------------------------------------------
// 3.10 – Digit-only dotted key: 3.14159 = "pi" is nested tables, not float
// -----------------------------------------------------------------------

#[test]
fn digit_only_dotted_key_not_float() {
    let doc = parse("3.14159 = \"pi\"\n").unwrap();
    // Should produce a table with key "3" containing a table with key "14159"
    let three = get(&doc, "3");
    assert_eq!(get(three, "14159"), &Value::String("pi".to_string()));
}

#[test]
fn digit_only_dotted_key_structure() {
    let doc = parse("3.14159 = \"pi\"\n").unwrap();
    match get(&doc, "3") {
        Value::Table(_) => {}
        other => panic!("expected Table for key '3', got {:?}", other),
    }
}

// -----------------------------------------------------------------------
// 3.3 – Empty bare key rejection: `= value` with no key should return Err
// -----------------------------------------------------------------------

#[test]
fn empty_bare_key_rejected() {
    assert!(parse("= \"value\"\n").is_err());
}

#[test]
fn empty_bare_key_no_space_rejected() {
    assert!(parse("=\"value\"\n").is_err());
}
