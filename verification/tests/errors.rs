// Errors: what is rejected, and where it is reported.

use toml_rust_parser::parse;

// -----------------------------------------------------------------------
// Helper: assert parse returns Err with a non-empty message.
// -----------------------------------------------------------------------
fn assert_err_with_message(input: &str) -> toml_rust_parser::ParseError {
    let result = parse(input);
    assert!(result.is_err(), "expected Err for input: {:?}", input);
    let err = result.unwrap_err();
    assert!(!err.message.is_empty(), "error message should not be empty");
    err
}

// -----------------------------------------------------------------------
// 15.1 – Parser returns Err (not panics) for invalid inputs
// 15.2 – ParseError has non-empty message
// -----------------------------------------------------------------------

// Lexer-level error: invalid escape sequence in basic string.
// The lexer tracks line/col, so we also verify line > 0 and col > 0.
#[test]
fn invalid_escape_sequence_returns_err() {
    let err = assert_err_with_message(r#"x = "\a""#);
    assert!(err.line > 0, "line should be > 0, got {}", err.line);
    assert!(err.col > 0, "col should be > 0, got {}", err.col);
}

// Lexer-level error: control character (U+0001) in basic string.
#[test]
fn control_char_in_basic_string_returns_err() {
    let input = "x = \"\u{0001}\"";
    let err = assert_err_with_message(input);
    assert!(err.line > 0, "line should be > 0, got {}", err.line);
    assert!(err.col > 0, "col should be > 0, got {}", err.col);
}

// Parser-level error: duplicate key.
#[test]
fn duplicate_key_returns_err() {
    let input = "name = \"Alice\"\nname = \"Bob\"\n";
    assert_err_with_message(input);
}

// Parser-level error: duplicate table header.
#[test]
fn duplicate_table_header_returns_err() {
    let input = "[server]\nhost = \"a\"\n[server]\nhost = \"b\"\n";
    assert_err_with_message(input);
}

// Parser-level error: trailing comma in inline table.
#[test]
fn trailing_comma_inline_table_returns_err() {
    let input = "x = {a = 1,}\n";
    assert_err_with_message(input);
}

// Lexer-level error: integer overflow (value outside i64 range).
#[test]
fn integer_overflow_returns_err() {
    // 2^63 = 9223372036854775808, which is one more than i64::MAX
    let input = "x = 9223372036854775808\n";
    let err = assert_err_with_message(input);
    assert!(err.line > 0, "line should be > 0, got {}", err.line);
    assert!(err.col > 0, "col should be > 0, got {}", err.col);
}

// Lexer-level error: invalid date field range (month 13 is invalid).
#[test]
fn invalid_date_field_range_returns_err() {
    let input = "x = 2024-13-01\n";
    let err = assert_err_with_message(input);
    assert!(err.line > 0, "line should be > 0, got {}", err.line);
    assert!(err.col > 0, "col should be > 0, got {}", err.col);
}

// -----------------------------------------------------------------------
// 15.2 – ParseError line/col tracking: error on line 2 vs line 1
// For lexer-level errors the lexer tracks the actual position.
// -----------------------------------------------------------------------

// Error on line 1: invalid escape on the first line.
#[test]
fn error_on_line_1_has_correct_line() {
    let input = "x = \"\\a\"\n";
    let err = assert_err_with_message(input);
    assert_eq!(err.line, 1, "error should be on line 1, got {}", err.line);
}

// Error on line 2: invalid escape on the second line.
#[test]
fn error_on_line_2_has_correct_line() {
    let input = "valid = 1\nx = \"\\a\"\n";
    let err = assert_err_with_message(input);
    assert_eq!(err.line, 2, "error should be on line 2, got {}", err.line);
}

// -----------------------------------------------------------------------
// 15.2 – Non-empty message for all representative error cases
// -----------------------------------------------------------------------

#[test]
fn all_error_cases_have_non_empty_message() {
    let cases = [
        // lexer errors
        ("invalid escape", "x = \"\\a\"\n"),
        ("control char", "x = \"\u{0001}\"\n"),
        ("integer overflow", "x = 9223372036854775808\n"),
        ("invalid date", "x = 2024-13-01\n"),
        // parser errors
        ("duplicate key", "a = 1\na = 2\n"),
        ("duplicate table", "[t]\n[t]\n"),
        ("trailing comma inline", "x = {a = 1,}\n"),
    ];
    for (label, input) in &cases {
        let result = parse(input);
        assert!(result.is_err(), "{}: expected Err", label);
        let err = result.unwrap_err();
        assert!(!err.message.is_empty(), "{}: message should not be empty", label);
    }
}

// -----------------------------------------------------------------------
// 15.2 – Precise line/col tests for representative error categories
// -----------------------------------------------------------------------

// 1. Duplicate key: "a = 1\na = 2\n"
//    Parser-level error; parser currently reports line=1, col=1.
#[test]
fn duplicate_key_line_col() {
    let input = "a = 1\na = 2\n";
    let e = parse(input).expect_err("expected duplicate key error");
    assert_eq!(e.line, 1, "duplicate key: wrong line (got {})", e.line);
    assert_eq!(e.col, 1, "duplicate key: wrong col (got {})", e.col);
    assert!(!e.message.is_empty(), "duplicate key: message must not be empty");
}

// 2. Invalid escape sequence in a basic string: a = "\q"
//    Lexer-level error; \q is at col 7 (1-based: a=1, space=2, ==3, space=4, "=5, \=6, q=7).
#[test]
fn invalid_escape_line_col() {
    let input = "a = \"\\q\"\n";
    let e = parse(input).expect_err("expected invalid escape error");
    assert_eq!(e.line, 1, "invalid escape: wrong line (got {})", e.line);
    assert_eq!(e.col, 7, "invalid escape: wrong col (got {})", e.col);
    assert!(!e.message.is_empty(), "invalid escape: message must not be empty");
}

// 3. Integer overflow: value larger than i64::MAX
//    Lexer-level error; number starts at col 5 (a=1, space=2, ==3, space=4, digit=5).
#[test]
fn integer_overflow_line_col() {
    // 9223372036854775808 = i64::MAX + 1
    let input = "a = 9223372036854775808\n";
    let e = parse(input).expect_err("expected integer overflow error");
    assert_eq!(e.line, 1, "integer overflow: wrong line (got {})", e.line);
    assert_eq!(e.col, 5, "integer overflow: wrong col (got {})", e.col);
    assert!(!e.message.is_empty(), "integer overflow: message must not be empty");
}

// 4. Invalid date/time: month 13
//    Lexer-level error; date token starts at col 5.
#[test]
fn invalid_date_month_13_line_col() {
    let input = "a = 2024-13-01\n";
    let e = parse(input).expect_err("expected invalid date error");
    assert_eq!(e.line, 1, "invalid date: wrong line (got {})", e.line);
    assert_eq!(e.col, 5, "invalid date: wrong col (got {})", e.col);
    assert!(!e.message.is_empty(), "invalid date: message must not be empty");
}

// 5. Inline table extension via a subsequent [table] header
//    Parser-level error; parser reports line=1, col=1.
#[test]
fn inline_table_extension_line_col() {
    let input = "a = {x = 1}\n[a]\nb = 2\n";
    let e = parse(input).expect_err("expected inline table extension error");
    assert_eq!(e.line, 1, "inline table extension: wrong line (got {})", e.line);
    assert_eq!(e.col, 1, "inline table extension: wrong col (got {})", e.col);
    assert!(!e.message.is_empty(), "inline table extension: message must not be empty");
}

// 6. Trailing content after a value (no newline/EOF): "a = 1 b = 2\n"
//    Parser-level error; parser reports line=1, col=1.
#[test]
fn trailing_content_after_value_line_col() {
    let input = "a = 1 b = 2\n";
    let e = parse(input).expect_err("expected trailing content error");
    assert_eq!(e.line, 1, "trailing content: wrong line (got {})", e.line);
    assert_eq!(e.col, 1, "trailing content: wrong col (got {})", e.col);
    assert!(!e.message.is_empty(), "trailing content: message must not be empty");
}

// 7. Duplicate table header: "[a]\n[a]\n"
//    Parser-level error; parser reports line=1, col=1.
#[test]
fn duplicate_table_header_line_col() {
    let input = "[a]\n[a]\n";
    let e = parse(input).expect_err("expected duplicate table header error");
    assert_eq!(e.line, 1, "duplicate table header: wrong line (got {})", e.line);
    assert_eq!(e.col, 1, "duplicate table header: wrong col (got {})", e.col);
    assert!(!e.message.is_empty(), "duplicate table header: message must not be empty");
}

// 8. Appending to a static array via [[key]]
//    Parser-level error; parser reports line=1, col=1.
#[test]
fn append_to_static_array_via_aot_line_col() {
    let input = "a = [1, 2]\n[[a]]\nb = 3\n";
    let e = parse(input).expect_err("expected static array append error");
    assert_eq!(e.line, 1, "static array append: wrong line (got {})", e.line);
    assert_eq!(e.col, 1, "static array append: wrong col (got {})", e.col);
    assert!(!e.message.is_empty(), "static array append: message must not be empty");
}

// -----------------------------------------------------------------------
// 15.5 – First error in document order: when multiple errors could be
//         reported, the parser reports the first one encountered.
// -----------------------------------------------------------------------

// Two errors: invalid escape on line 1 and duplicate key on line 3.
// The first error (invalid escape, line 1) should be reported.
#[test]
fn first_error_in_document_order() {
    // Line 1 has an invalid escape; line 3 would be a duplicate key.
    let input = "a = \"\\q\"\nb = 1\nb = 2\n";
    let e = parse(input).expect_err("expected error");
    assert_eq!(e.line, 1, "first error should be on line 1, got {}", e.line);
}
