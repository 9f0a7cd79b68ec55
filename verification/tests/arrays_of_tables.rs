// Arrays of tables.

use toml_rust_parser::{parse, Table, Value};

// Helper: navigate a dot-separated path through nested Tables.
fn get_path<'a>(val: &'a Value, path: &[&str]) -> &'a Value {
    let mut cur = val;
    for seg in path {
        match cur {
            Value::Table(m) => {
                cur = m.get(*seg).unwrap_or_else(|| panic!("key '{}' not found", seg))
            }
            other => panic!("expected Table at '{}', got {:?}", seg, other),
        }
    }
    cur
}

// -----------------------------------------------------------------------
// 12.1 – Basic append: [[products]] twice creates an array of 2 tables
// -----------------------------------------------------------------------

#[test]
fn basic_append_two_elements() {
    let input = "[[products]]\nname = \"hammer\"\n[[products]]\nname = \"nail\"\n";
    let doc = parse(input).unwrap();
    match get_path(&doc, &["products"]) {
        Value::Array(arr) => {
            assert_eq!(arr.len(), 2);
            assert!(matches!(&arr[0], Value::Table(_)));
            assert!(matches!(&arr[1], Value::Table(_)));
        }
        other => panic!("expected Array, got {:?}", other),
    }
}

// -----------------------------------------------------------------------
// 12.2 – Each [[key]] header associates key/value pairs with the most
//         recently appended element
// -----------------------------------------------------------------------

#[test]
fn keyvals_associated_with_last_appended_element() {
    let input = "[[products]]\nname = \"hammer\"\nprice = 9\n[[products]]\nname = \"nail\"\nprice = 1\n";
    let doc = parse(input).unwrap();
    match get_path(&doc, &["products"]) {
        Value::Array(arr) => {
            assert_eq!(arr.len(), 2);
            match &arr[0] {
                Value::Table(m) => {
                    assert_eq!(m.get("name"), Some(&Value::String("hammer".to_string())));
                    assert_eq!(m.get("price"), Some(&Value::Integer(9)));
                }
                other => panic!("expected Table, got {:?}", other),
            }
            match &arr[1] {
                Value::Table(m) => {
                    assert_eq!(m.get("name"), Some(&Value::String("nail".to_string())));
                    assert_eq!(m.get("price"), Some(&Value::Integer(1)));
                }
                other => panic!("expected Table, got {:?}", other),
            }
        }
        other => panic!("expected Array, got {:?}", other),
    }
}

// -----------------------------------------------------------------------
// 12.6 – Nested AOT: [[fruits.varieties]] nested under [[fruits]]
// -----------------------------------------------------------------------

#[test]
fn nested_aot_under_parent_aot() {
    let input = "[[fruits]]\nname = \"apple\"\n[[fruits.varieties]]\nname = \"red delicious\"\n[[fruits.varieties]]\nname = \"granny smith\"\n[[fruits]]\nname = \"banana\"\n[[fruits.varieties]]\nname = \"plantain\"\n";
    let doc = parse(input).unwrap();
    match get_path(&doc, &["fruits"]) {
        Value::Array(fruits) => {
            assert_eq!(fruits.len(), 2);
            // First fruit: apple with 2 varieties
            match &fruits[0] {
                Value::Table(m) => {
                    assert_eq!(m.get("name"), Some(&Value::String("apple".to_string())));
                    match m.get("varieties") {
                        Some(Value::Array(vars)) => {
                            assert_eq!(vars.len(), 2);
                            match &vars[0] {
                                Value::Table(v) => assert_eq!(
                                    v.get("name"),
                                    Some(&Value::String("red delicious".to_string()))
                                ),
                                other => panic!("expected Table, got {:?}", other),
                            }
                            match &vars[1] {
                                Value::Table(v) => assert_eq!(
                                    v.get("name"),
                                    Some(&Value::String("granny smith".to_string()))
                                ),
                                other => panic!("expected Table, got {:?}", other),
                            }
                        }
                        other => panic!("expected Array for varieties, got {:?}", other),
                    }
                }
                other => panic!("expected Table for fruits[0], got {:?}", other),
            }
            // Second fruit: banana with 1 variety
            match &fruits[1] {
                Value::Table(m) => {
                    assert_eq!(m.get("name"), Some(&Value::String("banana".to_string())));
                    match m.get("varieties") {
                        Some(Value::Array(vars)) => {
                            assert_eq!(vars.len(), 1);
                            match &vars[0] {
                                Value::Table(v) => assert_eq!(
                                    v.get("name"),
                                    Some(&Value::String("plantain".to_string()))
                                ),
                                other => panic!("expected Table, got {:?}", other),
                            }
                        }
                        other => panic!("expected Array for varieties, got {:?}", other),
                    }
                }
                other => panic!("expected Table for fruits[1], got {:?}", other),
            }
        }
        other => panic!("expected Array for fruits, got {:?}", other),
    }
}

// -----------------------------------------------------------------------
// 12.5 – Static-array conflict: `fruits = []` followed by `[[fruits]]`
//         should return Err
// -----------------------------------------------------------------------

#[test]
fn static_array_conflict_returns_err() {
    let input = "fruits = []\n[[fruits]]\nname = \"apple\"\n";
    assert!(parse(input).is_err());
}

// -----------------------------------------------------------------------
// 12.3 – Standard-table conflict: `[fruits]` followed by `[[fruits]]`
//         should return Err
// -----------------------------------------------------------------------

#[test]
fn standard_table_conflict_returns_err() {
    let input = "[fruits]\nname = \"apple\"\n[[fruits]]\nname = \"banana\"\n";
    assert!(parse(input).is_err());
}

// -----------------------------------------------------------------------
// 12.4 – [[aot]] after [aot] (standard table) should return Err
// -----------------------------------------------------------------------

#[test]
fn aot_after_standard_table_returns_err() {
    let input = "[aot]\nkey = 1\n[[aot]]\nkey = 2\n";
    assert!(parse(input).is_err());
}

// -----------------------------------------------------------------------
// 12.8 – Sub-table under AOT element: [products.details] after
//         [[products]] adds a sub-table to the last element
// -----------------------------------------------------------------------

#[test]
fn sub_table_under_aot_element() {
    let input = "[[products]]\nname = \"widget\"\n[products.details]\nweight = 5\ncolor = \"blue\"\n";
    let doc = parse(input).unwrap();
    match get_path(&doc, &["products"]) {
        Value::Array(arr) => {
            assert_eq!(arr.len(), 1);
            match &arr[0] {
                Value::Table(m) => {
                    assert_eq!(m.get("name"), Some(&Value::String("widget".to_string())));
                    match m.get("details") {
                        Some(Value::Table(d)) => {
                            assert_eq!(d.get("weight"), Some(&Value::Integer(5)));
                            assert_eq!(
                                d.get("color"),
                                Some(&Value::String("blue".to_string()))
                            );
                        }
                        other => panic!("expected Table for details, got {:?}", other),
                    }
                }
                other => panic!("expected Table for products[0], got {:?}", other),
            }
        }
        other => panic!("expected Array for products, got {:?}", other),
    }
}
