// Strings: basic, literal and multi-line, with their escapes.

use toml_rust_parser::{parse, Table, Value};

fn take_key(map: Table, k: &str) -> Value {
    let (keys, values) = map.into_parts();
    let i = keys.iter().position(|x| x == k).expect("key not found");
    values.into_iter().nth(i).unwrap()
}

// Helper: parse `key = <value_toml>` and extract the string value.
fn parse_str(value_toml: &str) -> Result<String, toml_rust_parser::ParseError> {
    let input = format!("x = {}", value_toml);
    let doc = parse(&input)?;
    match doc {
        Value::Table(map) => match take_key(map, "x") {
            Value::String(s) => Ok(s),
            other => panic!("expected String, got {:?}", other),
        },
        _ => panic!("expected Table"),
    }
}

// -----------------------------------------------------------------------
// 4.1 – Basic string escape sequences
// -----------------------------------------------------------------------

#[test]
fn basic_string_escape_backspace() {
    assert_eq!(parse_str(r#""\b""#).unwrap(), "\u{0008}");
}

#[test]
fn basic_string_escape_tab() {
    assert_eq!(parse_str(r#""\t""#).unwrap(), "\t");
}

#[test]
fn basic_string_escape_newline() {
    assert_eq!(parse_str(r#""\n""#).unwrap(), "\n");
}

#[test]
fn basic_string_escape_formfeed() {
    assert_eq!(parse_str(r#""\f""#).unwrap(), "\u{000C}");
}

#[test]
fn basic_string_escape_carriage_return() {
    assert_eq!(parse_str(r#""\r""#).unwrap(), "\r");
}

#[test]
fn basic_string_escape_quote() {
    assert_eq!(parse_str(r#""\"""#).unwrap(), "\"");
}

#[test]
fn basic_string_escape_backslash() {
    assert_eq!(parse_str(r#""\\""#).unwrap(), "\\");
}

#[test]
fn basic_string_escape_unicode_4digit() {
    // \u0041 = 'A'
    assert_eq!(parse_str(r#""\u0041""#).unwrap(), "A");
}

#[test]
fn basic_string_escape_unicode_8digit() {
    // \U0001F600 = 😀
    assert_eq!(parse_str(r#""\U0001F600""#).unwrap(), "😀");
}

#[test]
fn basic_string_all_escapes_combined() {
    assert_eq!(
        parse_str(r#""\b\t\n\f\r\"\\""#).unwrap(),
        "\u{0008}\t\n\u{000C}\r\"\\"
    );
}

// -----------------------------------------------------------------------
// 4.2 – Unrecognized escape rejection
// -----------------------------------------------------------------------

#[test]
fn basic_string_unrecognized_escape_rejected() {
    assert!(parse_str(r#""\a""#).is_err());
}

#[test]
fn basic_string_unrecognized_escape_x_rejected() {
    assert!(parse_str(r#""\x41""#).is_err());
}

// -----------------------------------------------------------------------
// 4.3 – Invalid Unicode scalar value rejection
// -----------------------------------------------------------------------

#[test]
fn basic_string_invalid_unicode_surrogate_rejected() {
    // U+D800 is a surrogate, not a valid scalar value
    assert!(parse_str(r#""\uD800""#).is_err());
}

#[test]
fn basic_string_invalid_unicode_too_large_rejected() {
    // U+110000 is beyond the Unicode range
    assert!(parse_str(r#""\U00110000""#).is_err());
}

// -----------------------------------------------------------------------
// 4.4 – Control character rejection in basic strings
// -----------------------------------------------------------------------

#[test]
fn basic_string_control_char_nul_rejected() {
    // U+0000 (NUL) embedded directly
    let input = "x = \"\u{0000}\"";
    assert!(parse(input).is_err());
}

#[test]
fn basic_string_control_char_0x01_rejected() {
    let input = "x = \"\u{0001}\"";
    assert!(parse(input).is_err());
}

#[test]
fn basic_string_control_char_del_rejected() {
    // U+007F (DEL)
    let input = "x = \"\u{007F}\"";
    assert!(parse(input).is_err());
}

#[test]
fn basic_string_tab_allowed() {
    // Tab (U+0009) is explicitly allowed unescaped
    assert_eq!(parse_str("\"\t\"").unwrap(), "\t");
}

// -----------------------------------------------------------------------
// 4.8 – Literal strings: raw content, no escape processing
// -----------------------------------------------------------------------

#[test]
fn literal_string_raw_content() {
    assert_eq!(parse_str("'hello world'").unwrap(), "hello world");
}

#[test]
fn literal_string_backslash_not_escaped() {
    // Backslash is literal in a literal string
    assert_eq!(parse_str(r"'C:\Users\tom'").unwrap(), r"C:\Users\tom");
}

#[test]
fn literal_string_double_quote_allowed() {
    assert_eq!(parse_str("'say \"hi\"'").unwrap(), "say \"hi\"");
}

// -----------------------------------------------------------------------
// 4.9 – Control character rejection in literal strings
// -----------------------------------------------------------------------

#[test]
fn literal_string_control_char_rejected() {
    // U+0001 embedded directly
    let input = "x = '\u{0001}'";
    assert!(parse(input).is_err());
}

#[test]
fn literal_string_del_rejected() {
    let input = "x = '\u{007F}'";
    assert!(parse(input).is_err());
}

#[test]
fn literal_string_tab_allowed() {
    // Tab is allowed in literal strings
    assert_eq!(parse_str("'\t'").unwrap(), "\t");
}

// -----------------------------------------------------------------------
// 4.5 – Multi-line basic string: leading newline trim
// -----------------------------------------------------------------------

#[test]
fn ml_basic_string_leading_newline_trimmed() {
    // The newline immediately after """ is trimmed (covered by _direct test below)
    // This test verifies the same via the helper which wraps in key=value
    // Note: the helper adds "x = " prefix, so we pass the raw ml string
    let input = "x = \"\"\"\nhello\"\"\"";
    let doc = parse(input).unwrap();
    match doc {
        Value::Table(m) => {
            assert_eq!(*m.get("x").unwrap(), Value::String("hello".to_string()));
        }
        _ => panic!(),
    }
}

#[test]
fn ml_basic_string_leading_newline_trimmed_direct() {
    let input = "x = \"\"\"\nhello\"\"\"";
    let doc = parse(input).unwrap();
    match doc {
        Value::Table(m) => {
            assert_eq!(*m.get("x").unwrap(), Value::String("hello".to_string()));
        }
        _ => panic!(),
    }
}

#[test]
fn ml_basic_string_no_leading_newline_not_trimmed() {
    // If no leading newline, content starts immediately
    let input = "x = \"\"\"hello\"\"\"";
    let doc = parse(input).unwrap();
    match doc {
        Value::Table(m) => {
            assert_eq!(*m.get("x").unwrap(), Value::String("hello".to_string()));
        }
        _ => panic!(),
    }
}

#[test]
fn ml_basic_string_crlf_leading_newline_trimmed() {
    // CRLF immediately after """ is also trimmed
    let input = "x = \"\"\"\r\nhello\"\"\"";
    let doc = parse(input).unwrap();
    match doc {
        Value::Table(m) => {
            assert_eq!(*m.get("x").unwrap(), Value::String("hello".to_string()));
        }
        _ => panic!(),
    }
}

// -----------------------------------------------------------------------
// 4.6 – Multi-line basic string: line-ending backslash
// -----------------------------------------------------------------------

#[test]
fn ml_basic_string_line_ending_backslash() {
    // Backslash at end of line trims backslash + whitespace + newline
    let input = "x = \"\"\"\\\n    hello\"\"\"";
    let doc = parse(input).unwrap();
    match doc {
        Value::Table(m) => {
            assert_eq!(*m.get("x").unwrap(), Value::String("hello".to_string()));
        }
        _ => panic!(),
    }
}

#[test]
fn ml_basic_string_line_ending_backslash_multiple_lines() {
    let input = "x = \"\"\"\\\n  \n  hello\"\"\"";
    let doc = parse(input).unwrap();
    match doc {
        Value::Table(m) => {
            assert_eq!(*m.get("x").unwrap(), Value::String("hello".to_string()));
        }
        _ => panic!(),
    }
}

// -----------------------------------------------------------------------
// 4.7 – Multi-line basic string: up to two unescaped quotes before closing
// -----------------------------------------------------------------------

#[test]
fn ml_basic_string_one_quote_before_closing() {
    // Content ends with one quote before the closing """
    let input = "x = \"\"\"hello\"\"\"\"";
    // That's: content = hello", closing = """
    let doc = parse(input).unwrap();
    match doc {
        Value::Table(m) => {
            assert_eq!(*m.get("x").unwrap(), Value::String("hello\"".to_string()));
        }
        _ => panic!(),
    }
}

#[test]
fn ml_basic_string_two_quotes_before_closing() {
    // Content ends with two quotes before the closing """
    // TOML: x = """hello"""""  (3 opening + hello + 2 extra + 3 closing = 5 quotes at end)
    let input = "x = \"\"\"hello\"\"\"\"\"\"";
    // That's: x = """ hello "" """  but we need exactly 5 quotes at end
    // Use a raw string to be unambiguous: """hello"""""
    let input2 = r#"x = """hello""""" "#;
    // Trim trailing space
    let input2 = input2.trim_end();
    let doc = parse(input2).unwrap();
    match doc {
        Value::Table(m) => {
            assert_eq!(*m.get("x").unwrap(), Value::String("hello\"\"".to_string()));
        }
        _ => panic!(),
    }
}

#[test]
fn ml_basic_string_one_quote_inside() {
    // One unescaped quote in the middle of a multi-line basic string
    let input2 = "x = \"\"\"say \"hi\" there\"\"\"";
    let doc = parse(input2).unwrap();
    match doc {
        Value::Table(m) => {
            assert_eq!(*m.get("x").unwrap(), Value::String("say \"hi\" there".to_string()));
        }
        _ => panic!(),
    }
}

#[test]
fn ml_basic_string_escape_sequences_work() {
    let input = "x = \"\"\"\n\\t\\n\\\\\"\"\"";
    let doc = parse(input).unwrap();
    match doc {
        Value::Table(m) => {
            assert_eq!(*m.get("x").unwrap(), Value::String("\t\n\\".to_string()));
        }
        _ => panic!(),
    }
}

// -----------------------------------------------------------------------
// 4.10 – Multi-line literal string: leading newline trim
// -----------------------------------------------------------------------

#[test]
fn ml_literal_string_leading_newline_trimmed() {
    let input = "x = '''\nhello'''";
    let doc = parse(input).unwrap();
    match doc {
        Value::Table(m) => {
            assert_eq!(*m.get("x").unwrap(), Value::String("hello".to_string()));
        }
        _ => panic!(),
    }
}

#[test]
fn ml_literal_string_no_leading_newline_not_trimmed() {
    let input = "x = '''hello'''";
    let doc = parse(input).unwrap();
    match doc {
        Value::Table(m) => {
            assert_eq!(*m.get("x").unwrap(), Value::String("hello".to_string()));
        }
        _ => panic!(),
    }
}

#[test]
fn ml_literal_string_crlf_leading_newline_trimmed() {
    let input = "x = '''\r\nhello'''";
    let doc = parse(input).unwrap();
    match doc {
        Value::Table(m) => {
            assert_eq!(*m.get("x").unwrap(), Value::String("hello".to_string()));
        }
        _ => panic!(),
    }
}

// -----------------------------------------------------------------------
// 4.10 – Multi-line literal string: no escape processing
// -----------------------------------------------------------------------

#[test]
fn ml_literal_string_no_escape_processing() {
    let input = "x = '''\n\\n\\t\\\\'''";
    let doc = parse(input).unwrap();
    match doc {
        Value::Table(m) => {
            // Backslashes are literal
            assert_eq!(*m.get("x").unwrap(), Value::String("\\n\\t\\\\".to_string()));
        }
        _ => panic!(),
    }
}

// -----------------------------------------------------------------------
// 4.11 – Multi-line literal string: up to two unescaped single quotes before closing
// -----------------------------------------------------------------------

#[test]
fn ml_literal_string_one_quote_before_closing() {
    // Content ends with one single quote before the closing '''
    let input = "x = '''hello''''";
    let doc = parse(input).unwrap();
    match doc {
        Value::Table(m) => {
            assert_eq!(*m.get("x").unwrap(), Value::String("hello'".to_string()));
        }
        _ => panic!(),
    }
}

#[test]
fn ml_literal_string_two_quotes_before_closing() {
    // Content ends with two single quotes before the closing '''
    let input = "x = '''hello'''''";
    let doc = parse(input).unwrap();
    match doc {
        Value::Table(m) => {
            assert_eq!(*m.get("x").unwrap(), Value::String("hello''".to_string()));
        }
        _ => panic!(),
    }
}

#[test]
fn ml_literal_string_single_quote_inside() {
    let input = "x = '''it's a test'''";
    let doc = parse(input).unwrap();
    match doc {
        Value::Table(m) => {
            assert_eq!(*m.get("x").unwrap(), Value::String("it's a test".to_string()));
        }
        _ => panic!(),
    }
}

// -----------------------------------------------------------------------
// 4.12 – Multi-line literal string: control character rejection
// -----------------------------------------------------------------------

#[test]
fn ml_literal_string_control_char_rejected() {
    // U+0001 is not allowed (not tab, LF, or CR)
    let input = "x = '''\n\u{0001}'''";
    assert!(parse(input).is_err());
}

#[test]
fn ml_literal_string_del_rejected() {
    let input = "x = '''\n\u{007F}'''";
    assert!(parse(input).is_err());
}

#[test]
fn ml_literal_string_tab_allowed() {
    let input = "x = '''\n\t'''";
    let doc = parse(input).unwrap();
    match doc {
        Value::Table(m) => {
            assert_eq!(*m.get("x").unwrap(), Value::String("\t".to_string()));
        }
        _ => panic!(),
    }
}

#[test]
fn ml_literal_string_lf_allowed() {
    // LF is allowed inside multi-line literal strings
    let input = "x = '''\nline1\nline2'''";
    let doc = parse(input).unwrap();
    match doc {
        Value::Table(m) => {
            assert_eq!(*m.get("x").unwrap(), Value::String("line1\nline2".to_string()));
        }
        _ => panic!(),
    }
}

// -----------------------------------------------------------------------
// Additional edge cases
// -----------------------------------------------------------------------

#[test]
fn basic_string_empty() {
    assert_eq!(parse_str(r#""""#).unwrap(), "");
}

#[test]
fn literal_string_empty() {
    assert_eq!(parse_str("''").unwrap(), "");
}

#[test]
fn ml_basic_string_empty() {
    let input = "x = \"\"\"\"\"\"";
    let doc = parse(input).unwrap();
    match doc {
        Value::Table(m) => {
            assert_eq!(*m.get("x").unwrap(), Value::String("".to_string()));
        }
        _ => panic!(),
    }
}

#[test]
fn ml_literal_string_empty() {
    let input = "x = ''''''";
    let doc = parse(input).unwrap();
    match doc {
        Value::Table(m) => {
            assert_eq!(*m.get("x").unwrap(), Value::String("".to_string()));
        }
        _ => panic!(),
    }
}

#[test]
fn basic_string_unicode_content() {
    // Direct Unicode content (non-ASCII) is allowed
    assert_eq!(parse_str("\"héllo\"").unwrap(), "héllo");
}

#[test]
fn ml_basic_string_multiline_content() {
    let input = "x = \"\"\"\nline1\nline2\n\"\"\"";
    let doc = parse(input).unwrap();
    match doc {
        Value::Table(m) => {
            assert_eq!(*m.get("x").unwrap(), Value::String("line1\nline2\n".to_string()));
        }
        _ => panic!(),
    }
}
