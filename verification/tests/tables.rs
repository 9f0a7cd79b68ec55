// Tables: headers, dotted headers, implicit tables and the rules on defining a table twice.

use toml_rust_parser::{parse, Table, Value};

fn keys_of(m: &Table) -> Vec<&str> {
    (0..m.len()).map(|i| m.key_at(i).as_str()).collect()
}

// Helper: extract a nested Value by a dot-separated path.
fn get_path<'a>(val: &'a Value, path: &[&str]) -> &'a Value {
    let mut cur = val;
    for seg in path {
        match cur {
            Value::Table(m) => cur = m.get(*seg).unwrap_or_else(|| panic!("key '{}' not found", seg)),
            other => panic!("expected Table at '{}', got {:?}", seg, other),
        }
    }
    cur
}

// -----------------------------------------------------------------------
// 10.1 – Basic table header: [table] creates a table with key/value pairs
// -----------------------------------------------------------------------

#[test]
fn basic_table_header_creates_table() {
    let input = "[owner]\nname = \"Alice\"\nage = 30\n";
    let doc = parse(input).unwrap();
    let owner = get_path(&doc, &["owner"]);
    assert_eq!(get_path(owner, &["name"]), &Value::String("Alice".to_string()));
    assert_eq!(get_path(owner, &["age"]), &Value::Integer(30));
}

#[test]
fn basic_table_header_multiple_tables() {
    let input = "[a]\nx = 1\n[b]\ny = 2\n";
    let doc = parse(input).unwrap();
    assert_eq!(get_path(&doc, &["a", "x"]), &Value::Integer(1));
    assert_eq!(get_path(&doc, &["b", "y"]), &Value::Integer(2));
}

// -----------------------------------------------------------------------
// 10.2 – Dotted table header: [a.b.c] creates nested tables
// -----------------------------------------------------------------------

#[test]
fn dotted_table_header_creates_nested_tables() {
    let input = "[a.b.c]\nval = 42\n";
    let doc = parse(input).unwrap();
    assert_eq!(get_path(&doc, &["a", "b", "c", "val"]), &Value::Integer(42));
}

#[test]
fn dotted_table_header_two_levels() {
    let input = "[database.connection]\nhost = \"localhost\"\nport = 5432\n";
    let doc = parse(input).unwrap();
    assert_eq!(
        get_path(&doc, &["database", "connection", "host"]),
        &Value::String("localhost".to_string())
    );
    assert_eq!(
        get_path(&doc, &["database", "connection", "port"]),
        &Value::Integer(5432)
    );
}

// -----------------------------------------------------------------------
// 10.3 – Whitespace in header: [ table ] and [ a . b ] are valid
// -----------------------------------------------------------------------

#[test]
fn whitespace_around_key_in_header() {
    let input = "[ table ]\nkey = \"value\"\n";
    let doc = parse(input).unwrap();
    assert_eq!(
        get_path(&doc, &["table", "key"]),
        &Value::String("value".to_string())
    );
}

#[test]
fn whitespace_around_dots_in_dotted_header() {
    let input = "[ a . b ]\nkey = 1\n";
    let doc = parse(input).unwrap();
    assert_eq!(get_path(&doc, &["a", "b", "key"]), &Value::Integer(1));
}

// -----------------------------------------------------------------------
// 10.9 – Super-table defined after sub-table
// -----------------------------------------------------------------------

#[test]
fn super_table_after_sub_table() {
    let input = "[x.y.z.w]\ndeep = true\n[x]\nshallow = 1\n";
    let doc = parse(input).unwrap();
    assert_eq!(get_path(&doc, &["x", "shallow"]), &Value::Integer(1));
    assert_eq!(
        get_path(&doc, &["x", "y", "z", "w", "deep"]),
        &Value::Boolean(true)
    );
}

#[test]
fn super_table_after_sub_table_two_levels() {
    let input = "[a.b]\ninner = 2\n[a]\nouter = 1\n";
    let doc = parse(input).unwrap();
    assert_eq!(get_path(&doc, &["a", "outer"]), &Value::Integer(1));
    assert_eq!(get_path(&doc, &["a", "b", "inner"]), &Value::Integer(2));
}

// -----------------------------------------------------------------------
// 10.4 – Duplicate header rejection
// -----------------------------------------------------------------------

#[test]
fn duplicate_table_header_rejected() {
    let input = "[table]\nkey = 1\n[table]\nkey = 2\n";
    assert!(parse(input).is_err());
}

#[test]
fn duplicate_dotted_table_header_rejected() {
    let input = "[a.b]\nx = 1\n[a.b]\ny = 2\n";
    assert!(parse(input).is_err());
}

// -----------------------------------------------------------------------
// 10.5 – Redefining an explicitly defined table returns Err
// -----------------------------------------------------------------------

#[test]
fn redefine_explicit_table_rejected() {
    // [fruit] defined twice explicitly
    let input = "[fruit]\nname = \"apple\"\n[fruit]\nname = \"banana\"\n";
    assert!(parse(input).is_err());
}

#[test]
fn redefine_table_via_direct_key_assignment_rejected() {
    // 'a' is first defined as a non-table value, then [a] tries to open it
    let input = "a = 1\n[a]\nkey = 2\n";
    assert!(parse(input).is_err());
}

// -----------------------------------------------------------------------
// 10.6 – Implicit-table promotion: a table created implicitly via dotted
//         keys can be opened with [header] once
// -----------------------------------------------------------------------

#[test]
fn implicit_table_can_be_opened_once() {
    // 'a.b' is created implicitly by a dotted key, then [a] opens 'a'
    let input = "[a.b]\ninner = 1\n[a]\nouter = 2\n";
    let doc = parse(input).unwrap();
    assert_eq!(get_path(&doc, &["a", "outer"]), &Value::Integer(2));
    assert_eq!(get_path(&doc, &["a", "b", "inner"]), &Value::Integer(1));
}

#[test]
fn implicit_table_cannot_be_opened_twice() {
    // Opening [a] twice after it was implicitly created should fail
    let input = "[a.b]\ninner = 1\n[a]\nouter = 2\n[a]\nother = 3\n";
    assert!(parse(input).is_err());
}

// -----------------------------------------------------------------------
// 10.8 – Root table key/value pairs before any header
// -----------------------------------------------------------------------

#[test]
fn root_table_keyvals_before_header() {
    let input = "name = \"root\"\nversion = 1\n[section]\nkey = \"val\"\n";
    let doc = parse(input).unwrap();
    assert_eq!(get_path(&doc, &["name"]), &Value::String("root".to_string()));
    assert_eq!(get_path(&doc, &["version"]), &Value::Integer(1));
    assert_eq!(
        get_path(&doc, &["section", "key"]),
        &Value::String("val".to_string())
    );
}

#[test]
fn root_table_only_no_headers() {
    let input = "a = 1\nb = \"hello\"\nc = true\n";
    let doc = parse(input).unwrap();
    assert_eq!(get_path(&doc, &["a"]), &Value::Integer(1));
    assert_eq!(get_path(&doc, &["b"]), &Value::String("hello".to_string()));
    assert_eq!(get_path(&doc, &["c"]), &Value::Boolean(true));
}

// -----------------------------------------------------------------------
// Additional: table structure is Value::Table(IndexMap)
// -----------------------------------------------------------------------

#[test]
fn table_value_is_indexmap() {
    let input = "[t]\nx = 1\ny = 2\n";
    let doc = parse(input).unwrap();
    match get_path(&doc, &["t"]) {
        Value::Table(m) => {
            assert!(m.contains_key("x"));
            assert!(m.contains_key("y"));
        }
        other => panic!("expected Table, got {:?}", other),
    }
}

#[test]
fn table_preserves_insertion_order() {
    let input = "[t]\na = 1\nb = 2\nc = 3\n";
    let doc = parse(input).unwrap();
    match get_path(&doc, &["t"]) {
        Value::Table(m) => {
            let keys: Vec<&str> = keys_of(&m);
            assert_eq!(keys, vec!["a", "b", "c"]);
        }
        other => panic!("expected Table, got {:?}", other),
    }
}
