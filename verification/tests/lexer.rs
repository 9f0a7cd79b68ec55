// Tests of the lexer: tokens, peeking, and the errors it reports.

use toml_rust_parser::lexer::{Lexer, Token};
use toml_rust_parser::value::{LocalDate, LocalDateTime, LocalTime, OffsetDateTime, UtcOffset};

fn lex_all(input: &str) -> Vec<Token> {
    let mut lexer = Lexer::new(input);
    let mut tokens = Vec::new();
    loop {
        let tok = lexer.next_token().expect("lex error");
        let done = tok == Token::Eof;
        tokens.push(tok);
        if done {
            break;
        }
    }
    tokens
}

fn float_of(t: &Token) -> f64 {
    match t {
        Token::Float(s) => s.parse::<f64>().expect("float text"),
        other => panic!("expected a float, found {:?}", other),
    }
}

fn bare(s: &str) -> Token {
    Token::BareKey(s.to_string())
}

#[test]
fn test_structural_tokens() {
    let tokens = lex_all("= . , { } [ ] [[ ]]");
    assert_eq!(tokens[0], Token::Equals);
    assert_eq!(tokens[1], Token::Dot);
    assert_eq!(tokens[2], Token::Comma);
    assert_eq!(tokens[3], Token::LBrace);
    assert_eq!(tokens[4], Token::RBrace);
    assert_eq!(tokens[5], Token::LBracket);
    assert_eq!(tokens[6], Token::RBracket);
    assert_eq!(tokens[7], Token::DoubleLBracket);
    assert_eq!(tokens[8], Token::DoubleRBracket);
}

#[test]
fn test_bare_key() {
    let tokens = lex_all("hello_world-123");
    assert_eq!(tokens[0], bare("hello_world-123"));
}

#[test]
fn lexer_test_basic_string() {
    let tokens = lex_all(r#""hello\nworld""#);
    assert_eq!(tokens[0], Token::BasicString("hello\nworld".to_string()));
}

#[test]
fn lexer_test_literal_string() {
    let tokens = lex_all("'hello\\nworld'");
    assert_eq!(tokens[0], Token::LiteralString("hello\\nworld".to_string()));
}

#[test]
fn lexer_test_integer_decimal() {
    let tokens = lex_all("42 -17 +100 1_000_000");
    assert_eq!(tokens[0], Token::Integer(42));
    assert_eq!(tokens[1], Token::Integer(-17));
    assert_eq!(tokens[2], Token::Integer(100));
    assert_eq!(tokens[3], Token::Integer(1_000_000));
}

#[test]
fn lexer_test_integer_hex() {
    let tokens = lex_all("0xDEADBEEF 0xff");
    assert_eq!(tokens[0], Token::Integer(0xDEADBEEF_i64));
    assert_eq!(tokens[1], Token::Integer(0xff));
}

#[test]
fn lexer_test_integer_octal() {
    let tokens = lex_all("0o755");
    assert_eq!(tokens[0], Token::Integer(0o755));
}

#[test]
fn lexer_test_integer_binary() {
    let tokens = lex_all("0b11010110");
    assert_eq!(tokens[0], Token::Integer(0b11010110));
}

#[test]
fn test_float() {
    let tokens = lex_all("3.14 1e10 -2.5e-3");
    assert_eq!(float_of(&tokens[0]), 3.14);
    assert_eq!(float_of(&tokens[1]), 1e10);
    assert_eq!(float_of(&tokens[2]), -2.5e-3);
}

#[test]
fn test_float_special() {
    let tokens = lex_all("inf -inf +inf nan");
    assert_eq!(float_of(&tokens[0]), f64::INFINITY);
    assert_eq!(float_of(&tokens[1]), f64::NEG_INFINITY);
    assert_eq!(float_of(&tokens[2]), f64::INFINITY);
    assert!(float_of(&tokens[3]).is_nan());
}

#[test]
fn test_boolean() {
    let tokens = lex_all("true false");
    assert_eq!(tokens[0], Token::Boolean(true));
    assert_eq!(tokens[1], Token::Boolean(false));
}

#[test]
fn test_newline_and_comment() {
    let tokens = lex_all("a # comment\nb");
    assert_eq!(tokens[0], bare("a"));
    assert_eq!(tokens[1], Token::Newline);
    assert_eq!(tokens[2], bare("b"));
}

#[test]
fn lexer_test_local_date() {
    let tokens = lex_all("1979-05-27");
    assert_eq!(tokens[0], Token::LocalDateToken(LocalDate { year: 1979, month: 5, day: 27 }));
}

#[test]
fn lexer_test_local_datetime() {
    let tokens = lex_all("1979-05-27T07:32:00");
    assert_eq!(tokens[0], Token::LocalDateTimeToken(LocalDateTime {
        date: LocalDate { year: 1979, month: 5, day: 27 },
        time: LocalTime { hour: 7, minute: 32, second: 0, nanosecond: 0 },
    }));
}

#[test]
fn lexer_test_offset_datetime() {
    let tokens = lex_all("1979-05-27T07:32:00Z");
    assert_eq!(tokens[0], Token::OffsetDateTimeToken(OffsetDateTime {
        date: LocalDate { year: 1979, month: 5, day: 27 },
        time: LocalTime { hour: 7, minute: 32, second: 0, nanosecond: 0 },
        offset: UtcOffset::Z,
    }));
}

#[test]
fn lexer_test_local_time() {
    let tokens = lex_all("07:32:00.999999999");
    assert_eq!(tokens[0], Token::LocalTimeToken(LocalTime {
        hour: 7, minute: 32, second: 0, nanosecond: 999_999_999,
    }));
}

#[test]
fn test_fractional_truncation() {
    // More than 9 fractional digits are truncated, not rounded.
    let tokens = lex_all("07:32:00.1234567899999");
    assert_eq!(tokens[0], Token::LocalTimeToken(LocalTime {
        hour: 7, minute: 32, second: 0, nanosecond: 123_456_789,
    }));
}

#[test]
fn test_peek_token() {
    let mut lexer = Lexer::new("a = 1");
    assert_eq!(*lexer.peek_token().unwrap(), bare("a"));
    assert_eq!(*lexer.peek_token().unwrap(), bare("a"));
    assert_eq!(lexer.next_token().unwrap(), bare("a"));
    assert_eq!(lexer.next_token().unwrap(), Token::Equals);
}

#[test]
fn test_invalid_escape() {
    let mut lexer = Lexer::new(r#""\q""#);
    assert!(lexer.next_token().is_err());
}

#[test]
fn test_leading_zero_rejected() {
    let mut lexer = Lexer::new("01");
    assert!(lexer.next_token().is_err());
}

#[test]
fn test_ml_basic_string() {
    let tokens = lex_all("\"\"\"hello\nworld\"\"\"");
    assert_eq!(tokens[0], Token::MlBasicString("hello\nworld".to_string()));
}

#[test]
fn test_ml_literal_string() {
    let tokens = lex_all("'''hello\nworld'''");
    assert_eq!(tokens[0], Token::MlLiteralString("hello\nworld".to_string()));
}

#[test]
fn test_push_back_is_read_first() {
    let mut lexer = Lexer::new("a");
    lexer.push_back(Token::RBracket);
    assert_eq!(lexer.next_token().unwrap(), Token::RBracket);
    assert_eq!(lexer.next_token().unwrap(), bare("a"));
    assert_eq!(lexer.next_token().unwrap(), Token::Eof);
}

#[test]
fn test_key_mode_reads_digits_as_key_segments() {
    let mut lexer = Lexer::new("3.14");
    lexer.set_key_mode(true);
    assert_eq!(lexer.next_token().unwrap(), Token::Integer(3));
    assert_eq!(lexer.next_token().unwrap(), Token::Dot);
    assert_eq!(lexer.next_token().unwrap(), Token::Integer(14));
    let mut lexer = Lexer::new("3.14");
    assert_eq!(float_of(&lexer.next_token().unwrap()), 3.14);
}

#[test]
fn test_error_position_is_line_and_column() {
    let mut lexer = Lexer::new("\n  \"\\q\"");
    assert_eq!(lexer.next_token().unwrap(), Token::Newline);
    let e = lexer.next_token().unwrap_err();
    assert_eq!(e.line, 2);
    assert!(e.col >= 3);
    assert!(!e.message.is_empty());
}
