// Tests of the library's own functions and of the laws it proves, on
// concrete values.

use toml_rust_parser::lexer::is_bare_key_char;
use toml_rust_parser::parser::Parser;
use toml_rust_parser::printer::{escape_string, format_offset_datetime, format_time, is_array_of_tables, is_inline_value, PrettyPrinter};
use toml_rust_parser::value::{LocalDate, LocalTime, OffsetDateTime, UtcOffset};
use toml_rust_parser::{parse, to_toml_string, ParseError, Table, Value};

fn table(v: &Value) -> &Table {
    match v {
        Value::Table(t) => t,
        other => panic!("expected a table, found {:?}", other),
    }
}

#[test]
fn law_key_defined_once_on_a_document() {
    assert!(parse("a = 1\na = 2").is_err());
    assert!(parse("a.b = 1\na.b = 2").is_err());
    assert!(parse("t = { x = 1, x = 2 }").is_err());
}

#[test]
fn law_table_opened_once_on_a_document() {
    assert!(parse("[a]\n[a]").is_err());
    assert!(parse("[a.b]\n[a]\n[a]").is_err());
    // An implicit table may be opened once.
    assert!(parse("[a.b]\n[a]").is_ok());
}

#[test]
fn law_new_aot_table_is_current_on_a_document() {
    let v = parse("[[p]]\nx = 1\n[[p]]\nx = 2\n").unwrap();
    match table(&v).get("p").unwrap() {
        Value::Array(items) => {
            assert_eq!(items.len(), 2);
            assert_eq!(table(&items[0]).get("x"), Some(&Value::Integer(1)));
            assert_eq!(table(&items[1]).get("x"), Some(&Value::Integer(2)));
        }
        other => panic!("expected an array, found {:?}", other),
    }
}

#[test]
fn law_opened_table_is_current_on_a_document() {
    let v = parse("[a]\nx = 1\n[b]\ny = 2\n[a.c]\nz = 3\n").unwrap();
    let a = table(table(&v).get("a").unwrap());
    assert_eq!(a.get("x"), Some(&Value::Integer(1)));
    assert_eq!(table(a.get("c").unwrap()).get("z"), Some(&Value::Integer(3)));
}

#[test]
fn law_printed_string_reads_back_with_escapes() {
    let s = "tab\tquote\"back\\nl\ncr\rbell\u{7}del\u{7f}é";
    let mut t = Table::new();
    t.insert("s".to_string(), Value::String(s.to_string()));
    let printed = to_toml_string(&Value::Table(t));
    let v = parse(&printed).unwrap();
    assert_eq!(table(&v).get("s"), Some(&Value::String(s.to_string())));
}

#[test]
fn escape_string_writes_each_escape() {
    assert_eq!(escape_string("a\"b\\c"), "a\\\"b\\\\c");
    assert_eq!(escape_string("\u{8}\t\n\u{c}\r"), "\\b\\t\\n\\f\\r");
    assert_eq!(escape_string("\u{1}\u{1f}\u{7f}"), "\\u0001\\u001F\\u007F");
    assert_eq!(escape_string("plain é"), "plain é");
}

#[test]
fn format_time_trims_nanoseconds() {
    let t = |h, m, s, ns| LocalTime { hour: h, minute: m, second: s, nanosecond: ns };
    assert_eq!(format_time(&t(7, 32, 0, 0)), "07:32:00");
    assert_eq!(format_time(&t(7, 32, 0, 500_000_000)), "07:32:00.5");
    assert_eq!(format_time(&t(23, 59, 59, 999_999_999)), "23:59:59.999999999");
    assert_eq!(format_time(&t(0, 0, 1, 1_000)), "00:00:01.000001");
}

#[test]
fn format_offset_datetime_writes_the_offset() {
    let d = LocalDate { year: 1979, month: 5, day: 27 };
    let t = LocalTime { hour: 7, minute: 32, second: 0, nanosecond: 0 };
    let z = OffsetDateTime { date: d.clone(), time: t.clone(), offset: UtcOffset::Z };
    assert_eq!(format_offset_datetime(&z), "1979-05-27T07:32:00Z");
    let minus = OffsetDateTime { date: d.clone(), time: t.clone(), offset: UtcOffset::Minutes(-90) };
    assert_eq!(format_offset_datetime(&minus), "1979-05-27T07:32:00-01:30");
    let plus = OffsetDateTime { date: d, time: t, offset: UtcOffset::Minutes(330) };
    assert_eq!(format_offset_datetime(&plus), "1979-05-27T07:32:00+05:30");
}

#[test]
fn format_key_quotes_what_is_not_bare() {
    assert_eq!(PrettyPrinter::format_key("abc_D-9"), "abc_D-9");
    assert_eq!(PrettyPrinter::format_key("a b"), "\"a b\"");
    assert_eq!(PrettyPrinter::format_key(""), "\"\"");
    assert_eq!(PrettyPrinter::format_key("q\""), "\"q\\\"\"");
}

#[test]
fn format_path_joins_keys_with_dots() {
    let p = vec!["a".to_string(), "b c".to_string(), "d".to_string()];
    assert_eq!(PrettyPrinter::format_path(&p), "a.\"b c\".d");
    assert_eq!(PrettyPrinter::format_path(&[]), "");
}

#[test]
fn bare_key_characters() {
    for c in ['a', 'Z', '0', '9', '_', '-'] {
        assert!(is_bare_key_char(c));
    }
    for c in [' ', '.', '"', 'é', '+'] {
        assert!(!is_bare_key_char(c));
    }
}

#[test]
fn arrays_of_tables_and_inline_values() {
    let tbl = || Value::Table(Table::new());
    assert!(is_array_of_tables(&[tbl(), tbl()]));
    assert!(!is_array_of_tables(&[]));
    assert!(!is_array_of_tables(&[tbl(), Value::Integer(1)]));
    assert!(!is_inline_value(&tbl()));
    assert!(!is_inline_value(&Value::Array(vec![tbl()])));
    assert!(is_inline_value(&Value::Array(vec![])));
    assert!(is_inline_value(&Value::Integer(3)));
}

#[test]
fn printer_writes_the_three_passes() {
    // Inline values first, then sub-tables (an inline table among them),
    // then arrays of tables, each header after a blank line.
    let v = parse("[[p]]\nn = 1\n[t]\nx = \"y\"\n[t.u]\n[[p]]\na = [1, 2]\nb = { c = true }\nf = 2.5\n").unwrap();
    let printed = to_toml_string(&v);
    assert_eq!(
        printed,
        "[t]\nx = \"y\"\n\n[t.u]\n\n[[p]]\nn = 1\n\n[[p]]\na = [ 1, 2 ]\nf = 2.5\n\n[p.b]\nc = true\n"
    );
}

#[test]
fn printer_writes_nothing_for_a_non_table() {
    assert_eq!(to_toml_string(&Value::Integer(1)), "");
    assert_eq!(PrettyPrinter::print(&Value::Array(vec![])), "");
}

#[test]
fn error_display_text() {
    let e = ParseError::new("bad".to_string(), 3, 14);
    assert_eq!(e.to_display_string(), "bad at line 3, col 14");
    assert_eq!(e.line, 3);
    assert_eq!(e.col, 14);
}

#[test]
fn parser_errors_are_reported_at_line_one_col_one() {
    let e = parse("a = 1\nb = = 2").unwrap_err();
    assert_eq!((e.line, e.col), (1, 1));
    assert!(!e.message.is_empty());
}

#[test]
fn lexer_errors_are_reported_where_they_are() {
    let e = parse("a = 1\nb = \"\\q\"").unwrap_err();
    assert_eq!(e.line, 2);
    assert!(e.col > 1);
}

#[test]
fn table_insert_keeps_the_place_of_an_existing_key() {
    let mut t = Table::new();
    assert_eq!(t.insert("a".to_string(), Value::Integer(1)), None);
    assert_eq!(t.insert("b".to_string(), Value::Integer(2)), None);
    assert_eq!(t.insert("a".to_string(), Value::Integer(3)), Some(Value::Integer(1)));
    assert_eq!(t.len(), 2);
    assert_eq!(t.key_at(0), "a");
    assert_eq!(t.value_at(0), &Value::Integer(3));
    assert_eq!(t.position("b"), Some(1));
    assert!(t.contains_key("b"));
    assert!(!t.contains_key("c"));
    assert_eq!(t.get("c"), None);
    let (keys, values) = t.into_parts();
    assert_eq!(keys, vec!["a".to_string(), "b".to_string()]);
    assert_eq!(values, vec![Value::Integer(3), Value::Integer(2)]);
}

#[test]
fn parser_reads_through_the_parser_type() {
    let v = Parser::new("x = 1").parse().unwrap();
    assert_eq!(table(&v).get("x"), Some(&Value::Integer(1)));
}

#[test]
fn keys_that_read_as_keywords_elsewhere_round_trip() {
    // Where a key is expected, `true`, `false`, `inf` and `nan` are keys.
    let v = parse("\"true\" = 1").unwrap();
    let printed = to_toml_string(&v);
    assert_eq!(printed, "true = 1\n");
    assert_eq!(parse(&printed).unwrap(), v);
    let w = parse("t = { nan = true, inf-x = false }\n[false]\ninf = inf\n").unwrap();
    let t = table(table(&w).get("t").unwrap());
    assert_eq!(t.get("nan"), Some(&Value::Boolean(true)));
    assert_eq!(t.get("inf-x"), Some(&Value::Boolean(false)));
    let f = table(table(&w).get("false").unwrap());
    assert_eq!(f.get("inf"), Some(&Value::Float("inf".to_string())));
    assert_eq!(parse(&to_toml_string(&w)).unwrap(), w);
}

fn keys(t: &Table) -> Vec<String> {
    let mut out = Vec::new();
    for i in 0..t.len() {
        out.push(t.key_at(i).clone());
    }
    out
}

#[test]
fn law_document_reads_back_with_headers() {
    // Entries in an order the printer changes: a sub-table and an array of
    // tables before values written inline.
    let mut inner = Table::new();
    inner.insert("x".to_string(), Value::Integer(1));
    let mut deep = Table::new();
    deep.insert("d".to_string(), Value::Boolean(false));
    inner.insert("deep".to_string(), Value::Table(deep));
    let mut e1 = Table::new();
    e1.insert("y".to_string(), Value::String("s".to_string()));
    let mut e2 = Table::new();
    let mut e2sub = Table::new();
    e2sub.insert("w".to_string(), Value::Integer(7));
    e2.insert("sub".to_string(), Value::Table(e2sub));
    e2.insert("z".to_string(), Value::Boolean(true));
    let mut root = Table::new();
    root.insert("b".to_string(), Value::Table(inner));
    root.insert("arr".to_string(), Value::Array(vec![Value::Table(e1), Value::Table(e2)]));
    root.insert("a".to_string(), Value::Integer(1));
    root.insert("c".to_string(), Value::Array(vec![Value::Integer(1), Value::Integer(2)]));
    let printed = to_toml_string(&Value::Table(root));
    assert_eq!(
        printed,
        "a = 1\nc = [ 1, 2 ]\n\n[b]\nx = 1\n\n[b.deep]\nd = false\n\n[[arr]]\ny = \"s\"\n\n[[arr]]\nz = true\n\n[arr.sub]\nw = 7\n"
    );
    let v = parse(&printed).unwrap();
    let t = table(&v);
    // Values written inline come first, then sub-tables, then arrays of
    // tables; the tables within are in that order too.
    assert_eq!(keys(t), vec!["a", "c", "b", "arr"]);
    assert_eq!(t.get("a"), Some(&Value::Integer(1)));
    let b = table(t.get("b").unwrap());
    assert_eq!(keys(b), vec!["x", "deep"]);
    assert_eq!(table(b.get("deep").unwrap()).get("d"), Some(&Value::Boolean(false)));
    match t.get("arr").unwrap() {
        Value::Array(items) => {
            assert_eq!(items.len(), 2);
            assert_eq!(table(&items[0]).get("y"), Some(&Value::String("s".to_string())));
            let second = table(&items[1]);
            assert_eq!(keys(second), vec!["z", "sub"]);
            assert_eq!(table(second.get("sub").unwrap()).get("w"), Some(&Value::Integer(7)));
        }
        other => panic!("expected an array, found {:?}", other),
    }
    // Printing what was read gives the same text again.
    assert_eq!(to_toml_string(&v), printed);
}

#[test]
fn law_key_line_twice_refused_on_a_document() {
    assert!(parse("k = \"a\"\nk = \"b\"\n").is_err());
    assert!(parse("\"k 1\" = 1\n\"k 1\" = [ 2 ]\n").is_err());
}

#[test]
fn law_table_header_twice_refused_on_a_document() {
    assert!(parse("[k]\nx = \"a\"\n\n[k]\ny = \"b\"\n").is_err());
    assert!(parse("[\"a b\"]\nx = 1\n\n[\"a b\"]\n").is_err());
}

#[test]
fn law_spaces_around_equals_on_a_document() {
    let canonical = parse("key = \"v\"").unwrap();
    assert_eq!(parse("key=\"v\"").unwrap(), canonical);
    assert_eq!(parse("key    =  \"v\"").unwrap(), canonical);
    assert_eq!(table(&canonical).get("key"), Some(&Value::String("v".to_string())));
}

#[test]
fn law_spaces_around_dot_on_a_document() {
    let canonical = parse("a.b = \"v\"").unwrap();
    assert_eq!(parse("a . b= \"v\"").unwrap(), canonical);
    assert_eq!(parse("a   .  b   =\"v\"").unwrap(), canonical);
    let a = table(table(&canonical).get("a").unwrap());
    assert_eq!(a.get("b"), Some(&Value::String("v".to_string())));
}

fn nested_document() -> Value {
    let mut owner = Table::new();
    owner.insert("name".to_string(), Value::String("Tom \"T\" Preston".to_string()));
    owner.insert(
        "dob".to_string(),
        Value::OffsetDateTime(OffsetDateTime {
            date: LocalDate { year: 1979, month: 5, day: 27 },
            time: LocalTime { hour: 7, minute: 32, second: 0, nanosecond: 0 },
            offset: UtcOffset::Minutes(-480),
        }),
    );
    let mut p1 = Table::new();
    p1.insert("name".to_string(), Value::String("Hammer".to_string()));
    p1.insert("sku".to_string(), Value::Integer(738594937));
    let mut p2 = Table::new();
    p2.insert("color".to_string(), Value::String("gray".to_string()));
    let mut root = Table::new();
    root.insert("title".to_string(), Value::String("TOML".to_string()));
    root.insert("owner".to_string(), Value::Table(owner));
    root.insert("products".to_string(), Value::Array(vec![Value::Table(p1), Value::Table(p2)]));
    root.insert("ports".to_string(), Value::Array(vec![Value::Integer(8000), Value::Integer(8001)]));
    Value::Table(root)
}

#[test]
fn law_crlf_document_reads_back_on_a_document() {
    let v = nested_document();
    let printed = to_toml_string(&v);
    let crlf = printed.replace('\n', "\r\n");
    assert!(crlf.contains("\r\n\r\n[[products]]\r\n"));
    assert_eq!(parse(&crlf).unwrap(), parse(&printed).unwrap());
}

#[test]
fn law_commented_document_reads_back_on_a_document() {
    let v = nested_document();
    let printed = to_toml_string(&v);
    let mut commented = String::new();
    for line in printed.lines() {
        if line.is_empty() {
            commented.push_str(line);
        } else {
            commented.push_str(line);
            commented.push_str(" # a \"comment\" # [x] = 1");
        }
        commented.push('\n');
    }
    assert!(commented.contains("[owner] # a"));
    assert_eq!(parse(&commented).unwrap(), parse(&printed).unwrap());
}

#[test]
fn round_trip_keeps_keyword_like_keys() {
    for key in ["trueish", "falsehood", "info", "nan_x", "true_", "true", "false", "inf", "nan", "inf-x", "nan-"] {
        let mut t = Table::new();
        t.insert(key.to_string(), Value::Integer(1));
        let printed = to_toml_string(&Value::Table(t));
        assert_eq!(printed, format!("{} = 1\n", key));
        let v = parse(&printed).unwrap();
        assert_eq!(table(&v).get(key), Some(&Value::Integer(1)));
    }
}

#[test]
fn law_aot_keeps_its_tables_on_a_document() {
    let v = parse("[[p]]\nx = 1\n[[p]]\nx = 2\n[[p]]\n").unwrap();
    match table(&v).get("p").unwrap() {
        Value::Array(items) => {
            assert_eq!(items.len(), 3);
            assert_eq!(table(&items[0]).get("x"), Some(&Value::Integer(1)));
            assert_eq!(table(&items[1]).get("x"), Some(&Value::Integer(2)));
            assert!(table(&items[2]).is_empty());
        }
        other => panic!("expected an array, found {:?}", other),
    }
}

#[test]
fn law_implicit_table_opened_later_on_a_document() {
    assert!(parse("[a.b]\n[a]\nx = 1\n").is_ok());
    assert!(parse("[a.b]\n[a]\n[a]\n").is_err());
}

fn error_of(input: &str) -> ParseError {
    match parse(input) {
        Err(e) => e,
        Ok(v) => panic!("expected an error for {:?}, got {:?}", input, v),
    }
}

fn assert_error(input: &str, message: &str, line: u32, col: u32) {
    let e = error_of(input);
    assert_eq!(e.message, message, "message for {:?}", input);
    assert_eq!((e.line, e.col), (line, col), "position for {:?}", input);
}

#[test]
fn lexer_errors_name_the_code_point_character_or_number() {
    assert_error("a = \"x\u{1}y\"", "control character U+0001 in basic string", 1, 7);
    assert_error("a = 'x\u{1f}'", "control character U+001F in literal string", 1, 7);
    assert_error("a = \"\"\"\n\u{7f}\"\"\"", "control character U+007F in multi-line basic string", 2, 1);
    assert_error("a = '''\u{8}'''", "control character U+0008 in multi-line literal string", 1, 8);
    assert_error("a = 1 # \u{7f}", "control character U+007F in comment", 1, 7);
    assert_error("a = \"\\x41\"", "invalid escape sequence '\\x'", 1, 7);
    assert_error("a = \"\\uZZZZ\"", "invalid hex digit 'Z' in unicode escape", 1, 8);
    assert_error("a = \"\\uD800\"", "U+D800 is not a valid Unicode scalar value", 1, 12);
    assert_error("a = \"\\U00110000\"", "U+110000 is not a valid Unicode scalar value", 1, 16);
    assert_error("a = \"abc", "unterminated basic string", 1, 5);
    assert_error("a = ?", "unexpected character '?'", 1, 5);
    assert_error("t = 24:00:00", "invalid hour 24", 1, 5);
    assert_error("t = 23:60:00", "invalid minute 60", 1, 5);
    assert_error("t = 23:59:61", "invalid second 61", 1, 5);
    assert_error("d = 2024-13-01", "invalid month 13", 1, 5);
    assert_error("d = 2024-00-01", "invalid month 0", 1, 5);
    assert_error("d = 2024-01-32", "invalid day 32", 1, 5);
    assert_error("d = 1979-05-27T07:32:00+24:00", "invalid UTC offset 24:0", 1, 5);
    assert_error("d = 1979-05-27T07:3", "expected 2 digits for minute", 1, 20);
    assert_error("d = 1979-05-27T07-32", "expected ':', found '-'", 1, 18);
    assert_error("d = 1979-05-27T07", "expected ':', found EOF", 1, 18);
    assert_error("t = 07:32:00.", "expected digits after decimal point in time", 1, 14);
    assert_error("n = +0x1F", "sign prefix not allowed on hex integer", 1, 5);
    assert_error("n = 0o", "expected digit after base prefix", 1, 5);
    assert_error("n = 1__0", "invalid underscore placement in number", 1, 7);
    assert_error("n = 10_", "number cannot end with underscore", 1, 8);
    assert_error("n = 012", "leading zeros not allowed in integer", 1, 5);
    assert_error("n = 9223372036854775808", "integer overflow", 1, 5);
    assert_error("x = 1.", "expected digit after decimal point in float", 1, 7);
    assert_error("x = 1.0e_1", "expected digit in float exponent", 1, 9);
    assert_error("x = 1.0e1__0", "adjacent underscores in float exponent", 1, 11);
    assert_error("x = 1.2__3", "adjacent underscores in float", 1, 9);
    assert_error("x = 1.23_", "float cannot end with underscore", 1, 10);
}

#[test]
fn parser_errors_show_the_token_found() {
    assert_error("a = ", "expected value, found Eof", 1, 1);
    assert_error("a 1", "expected '=', found Integer(1)", 1, 1);
    assert_error("a = 1 2", "expected newline or EOF after value, found Integer(2)", 1, 1);
    assert_error("a = 1 \"x\"", "expected newline or EOF after value, found BasicString(\"x\")", 1, 1);
    assert_error("= 1", "expected key, found Equals", 1, 1);
    assert_error("[a = 1", "expected ']', found Equals", 1, 1);
    assert_error("a = [1 2]", "expected ',' or ']' in array", 1, 1);
    assert_error("a = {b = 1,}", "trailing comma not allowed in inline table", 1, 1);
    assert_error("a = {b = 1\n}", "newlines not allowed inside inline table", 1, 1);
    assert_error("a = {b = 1 c = 2}", "expected ',' or '}' in inline table", 1, 1);
    assert_error("a = 2024-01-02 x", "expected newline or EOF after value, found BareKey(\"x\")", 1, 1);
    assert_error(
        "a = 1 1979-05-27",
        "expected newline or EOF after value, found LocalDateToken(LocalDate { year: 1979, month: 5, day: 27 })",
        1,
        1,
    );
}

#[test]
fn table_rule_errors_name_the_key() {
    assert_error("a = 1\na = 2", "duplicate key 'a'", 1, 1);
    assert_error("[a]\n[a]", "table 'a' defined more than once", 1, 1);
    assert_error("a = 1\n[a]", "table 'a' already defined", 1, 1);
    assert_error("[[a]]\n[a]", "'a' is an array of tables, not a standard table", 1, 1);
    assert_error("a = []\n[[a]]", "'a' is already defined; cannot use as array of tables", 1, 1);
    assert_error("[a]\n[[a]]", "'a' is already defined as a table; cannot use as array of tables", 1, 1);
    assert_error("a = 1\na.b = 2", "'a' is already defined as a non-table value", 1, 1);
    assert_error("t = {a = 1, a = 2}", "duplicate key 'a' in inline table", 1, 1);
    assert_error("t = {a = 1, a.b = 2}", "'a' is already defined", 1, 1);
}

#[test]
fn tables_are_equal_whatever_the_order_of_their_keys() {
    let a = parse("a = 1\nb = 2").unwrap();
    let b = parse("b = 2\na = 1").unwrap();
    assert_eq!(a, b);
    let c = parse("a = 1\nb = 3").unwrap();
    assert_ne!(a, c);
    let d = parse("a = 1").unwrap();
    assert_ne!(a, d);
    assert_ne!(d, a);
    let e = parse("x = {p = 1, q = [1, 2]}\ny = 2").unwrap();
    let f = parse("y = 2\nx = {q = [1, 2], p = 1}").unwrap();
    assert_eq!(e, f);
    let g = parse("x = {q = [2, 1], p = 1}\ny = 2").unwrap();
    assert_ne!(e, g);
}

#[test]
fn a_cloned_value_is_equal_to_the_original() {
    let v = parse("a = 1\n[t]\nx = \"s\"\ny = [1.5, true]\n[[arr]]\nz = 1979-05-27T07:32:00Z").unwrap();
    let w = v.clone();
    assert_eq!(v, w);
    assert_eq!(to_toml_string(&v), to_toml_string(&w));
}

#[test]
fn law_escaped_text_is_plain_on_a_string() {
    let out = escape_string("a\u{1}\"b\\c\u{7f}\n\t");
    assert!(out.chars().all(|c| (c as u32) >= 0x20 && (c as u32) != 0x7f), "{:?}", out);
    let chars: Vec<char> = out.chars().collect();
    for (i, c) in chars.iter().enumerate() {
        if *c == '"' {
            assert!(i > 0 && chars[i - 1] == '\\', "{:?}", out);
        }
    }
    assert_eq!(out, "a\\u0001\\\"b\\\\c\\u007F\\n\\t");
}
