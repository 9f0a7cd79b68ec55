// Dates, times and date-times, with and without offsets.

use toml_rust_parser::parse;
use toml_rust_parser::value::{LocalDate, LocalDateTime, LocalTime, OffsetDateTime, UtcOffset};
use toml_rust_parser::{Table, Value};

fn take_key(map: Table, k: &str) -> Value {
    let (keys, values) = map.into_parts();
    let i = keys.iter().position(|x| x == k).expect("key not found");
    values.into_iter().nth(i).unwrap()
}

// -----------------------------------------------------------------------
// Helpers
// -----------------------------------------------------------------------

fn parse_offset_dt(value_toml: &str) -> Result<OffsetDateTime, toml_rust_parser::ParseError> {
    let input = format!("x = {}", value_toml);
    let doc = parse(&input)?;
    match doc {
        Value::Table(map) => match take_key(map, "x") {
            Value::OffsetDateTime(dt) => Ok(dt),
            other => panic!("expected OffsetDateTime, got {:?}", other),
        },
        _ => panic!("expected Table"),
    }
}

fn parse_local_dt(value_toml: &str) -> Result<LocalDateTime, toml_rust_parser::ParseError> {
    let input = format!("x = {}", value_toml);
    let doc = parse(&input)?;
    match doc {
        Value::Table(map) => match take_key(map, "x") {
            Value::LocalDateTime(dt) => Ok(dt),
            other => panic!("expected LocalDateTime, got {:?}", other),
        },
        _ => panic!("expected Table"),
    }
}

fn parse_local_date(value_toml: &str) -> Result<LocalDate, toml_rust_parser::ParseError> {
    let input = format!("x = {}", value_toml);
    let doc = parse(&input)?;
    match doc {
        Value::Table(map) => match take_key(map, "x") {
            Value::LocalDate(d) => Ok(d),
            other => panic!("expected LocalDate, got {:?}", other),
        },
        _ => panic!("expected Table"),
    }
}

fn parse_local_time(value_toml: &str) -> Result<LocalTime, toml_rust_parser::ParseError> {
    let input = format!("x = {}", value_toml);
    let doc = parse(&input)?;
    match doc {
        Value::Table(map) => match take_key(map, "x") {
            Value::LocalTime(t) => Ok(t),
            other => panic!("expected LocalTime, got {:?}", other),
        },
        _ => panic!("expected Table"),
    }
}

// -----------------------------------------------------------------------
// 8.1 – OffsetDateTime: Z offset
// -----------------------------------------------------------------------

#[test]
fn offset_datetime_z_offset() {
    let dt = parse_offset_dt("1979-05-27T07:32:00Z").unwrap();
    assert_eq!(dt.date, LocalDate { year: 1979, month: 5, day: 27 });
    assert_eq!(dt.time, LocalTime { hour: 7, minute: 32, second: 0, nanosecond: 0 });
    assert_eq!(dt.offset, UtcOffset::Z);
}

#[test]
fn offset_datetime_z_offset_lowercase() {
    // lowercase 'z' should also be accepted
    let dt = parse_offset_dt("1979-05-27T07:32:00z").unwrap();
    assert_eq!(dt.offset, UtcOffset::Z);
}

// -----------------------------------------------------------------------
// 8.1 – OffsetDateTime: +HH:MM offset
// -----------------------------------------------------------------------

#[test]
fn offset_datetime_positive_offset() {
    let dt = parse_offset_dt("1979-05-27T07:32:00+05:30").unwrap();
    assert_eq!(dt.date, LocalDate { year: 1979, month: 5, day: 27 });
    assert_eq!(dt.time, LocalTime { hour: 7, minute: 32, second: 0, nanosecond: 0 });
    // +05:30 = 5*60 + 30 = 330 minutes
    assert_eq!(dt.offset, UtcOffset::Minutes(330));
}

// -----------------------------------------------------------------------
// 8.1 – OffsetDateTime: -HH:MM offset
// -----------------------------------------------------------------------

#[test]
fn offset_datetime_negative_offset() {
    let dt = parse_offset_dt("1979-05-27T07:32:00-08:00").unwrap();
    // -08:00 = -(8*60) = -480 minutes
    assert_eq!(dt.offset, UtcOffset::Minutes(-480));
}

// -----------------------------------------------------------------------
// 8.1 – OffsetDateTime: space separator instead of T
// -----------------------------------------------------------------------

#[test]
fn offset_datetime_space_separator() {
    let dt = parse_offset_dt("1979-05-27 07:32:00Z").unwrap();
    assert_eq!(dt.date, LocalDate { year: 1979, month: 5, day: 27 });
    assert_eq!(dt.time, LocalTime { hour: 7, minute: 32, second: 0, nanosecond: 0 });
    assert_eq!(dt.offset, UtcOffset::Z);
}

// -----------------------------------------------------------------------
// 8.2 – LocalDateTime: valid RFC 3339 without offset
// -----------------------------------------------------------------------

#[test]
fn local_datetime_t_separator() {
    let dt = parse_local_dt("1979-05-27T07:32:00").unwrap();
    assert_eq!(dt.date, LocalDate { year: 1979, month: 5, day: 27 });
    assert_eq!(dt.time, LocalTime { hour: 7, minute: 32, second: 0, nanosecond: 0 });
}

// -----------------------------------------------------------------------
// 8.2 – LocalDateTime: space separator
// -----------------------------------------------------------------------

#[test]
fn local_datetime_space_separator() {
    let dt = parse_local_dt("1979-05-27 07:32:00").unwrap();
    assert_eq!(dt.date, LocalDate { year: 1979, month: 5, day: 27 });
    assert_eq!(dt.time, LocalTime { hour: 7, minute: 32, second: 0, nanosecond: 0 });
}

// -----------------------------------------------------------------------
// 8.3 – LocalDate: valid YYYY-MM-DD
// -----------------------------------------------------------------------

#[test]
fn local_date_valid() {
    let d = parse_local_date("1979-05-27").unwrap();
    assert_eq!(d, LocalDate { year: 1979, month: 5, day: 27 });
}

#[test]
fn local_date_first_of_year() {
    let d = parse_local_date("2024-01-01").unwrap();
    assert_eq!(d, LocalDate { year: 2024, month: 1, day: 1 });
}

// -----------------------------------------------------------------------
// 8.4 – LocalTime: valid HH:MM:SS
// -----------------------------------------------------------------------

#[test]
fn local_time_no_fractional() {
    let t = parse_local_time("07:32:00").unwrap();
    assert_eq!(t, LocalTime { hour: 7, minute: 32, second: 0, nanosecond: 0 });
}

// -----------------------------------------------------------------------
// 8.4 – LocalTime: with fractional seconds
// -----------------------------------------------------------------------

#[test]
fn local_time_with_fractional() {
    let t = parse_local_time("07:32:00.999").unwrap();
    assert_eq!(t, LocalTime { hour: 7, minute: 32, second: 0, nanosecond: 999_000_000 });
}

// -----------------------------------------------------------------------
// 8.5 – Fractional seconds: 3 digits (ms), 6 digits (µs), 9 digits (ns)
// -----------------------------------------------------------------------

#[test]
fn fractional_seconds_3_digits_ms() {
    let t = parse_local_time("00:00:00.123").unwrap();
    assert_eq!(t.nanosecond, 123_000_000);
}

#[test]
fn fractional_seconds_6_digits_us() {
    let t = parse_local_time("00:00:00.123456").unwrap();
    assert_eq!(t.nanosecond, 123_456_000);
}

#[test]
fn fractional_seconds_9_digits_ns() {
    let t = parse_local_time("00:00:00.123456789").unwrap();
    assert_eq!(t.nanosecond, 123_456_789);
}

#[test]
fn fractional_seconds_9_digits_max() {
    let t = parse_local_time("07:32:00.999999999").unwrap();
    assert_eq!(t.nanosecond, 999_999_999);
}

// -----------------------------------------------------------------------
// 8.6 – Truncation: more than 9 fractional digits truncated (not rounded)
// -----------------------------------------------------------------------

#[test]
fn fractional_seconds_truncated_not_rounded() {
    // 10 digits: .1234567899 → truncate to 9 → 123456789 (not rounded to 123456790)
    let t = parse_local_time("07:32:00.1234567899").unwrap();
    assert_eq!(t.nanosecond, 123_456_789);
}

#[test]
fn fractional_seconds_many_digits_truncated() {
    // Many extra digits: .1234567899999 → truncate to 9 → 123456789
    let t = parse_local_time("07:32:00.1234567899999").unwrap();
    assert_eq!(t.nanosecond, 123_456_789);
}

#[test]
fn fractional_seconds_truncation_in_offset_datetime() {
    // Truncation also applies to OffsetDateTime
    let dt = parse_offset_dt("1979-05-27T07:32:00.9999999999Z").unwrap();
    assert_eq!(dt.time.nanosecond, 999_999_999);
}

#[test]
fn fractional_seconds_truncation_in_local_datetime() {
    // Truncation also applies to LocalDateTime
    let dt = parse_local_dt("1979-05-27T07:32:00.9999999999").unwrap();
    assert_eq!(dt.time.nanosecond, 999_999_999);
}

// -----------------------------------------------------------------------
// 8.7 – Invalid field ranges
// -----------------------------------------------------------------------

#[test]
fn invalid_month_13() {
    assert!(parse_local_date("2024-13-01").is_err());
}

#[test]
fn invalid_month_00() {
    assert!(parse_local_date("2024-00-01").is_err());
}

#[test]
fn invalid_day_32() {
    assert!(parse_local_date("2024-01-32").is_err());
}

#[test]
fn invalid_day_00() {
    assert!(parse_local_date("2024-01-00").is_err());
}

#[test]
fn invalid_hour_24() {
    assert!(parse_local_time("24:00:00").is_err());
}

#[test]
fn invalid_minute_60() {
    assert!(parse_local_time("00:60:00").is_err());
}

#[test]
fn invalid_second_61() {
    // second > 60 is invalid (60 is allowed for leap seconds)
    assert!(parse_local_time("00:00:61").is_err());
}

// -----------------------------------------------------------------------
// 8.8 – Invalid format: missing separators, wrong format
// -----------------------------------------------------------------------

#[test]
fn invalid_date_missing_dashes() {
    // "20240101" looks like an integer, not a date
    let input = "x = 20240101";
    let doc = parse(input).unwrap();
    match doc {
        Value::Table(map) => {
            // Should parse as integer, not LocalDate
            assert!(matches!(*map.get("x").unwrap(), Value::Integer(_)));
        }
        _ => panic!("expected Table"),
    }
}

#[test]
fn invalid_time_missing_colons() {
    // "073200" looks like an integer, not a time
    let input = "x = 073200";
    assert!(parse(input).is_err()); // leading zero in integer is rejected
}

#[test]
fn invalid_datetime_wrong_separator() {
    // Using 'X' instead of 'T' or space should not produce a datetime
    // The date part "1979-05-27" would be parsed as LocalDate, then "X07:32:00Z" is a parse error
    let input = "x = 1979-05-27X07:32:00Z";
    assert!(parse(input).is_err());
}

#[test]
fn invalid_date_only_year() {
    // "1979" is an integer, not a date
    let input = "x = 1979";
    let doc = parse(input).unwrap();
    match doc {
        Value::Table(map) => {
            assert!(matches!(*map.get("x").unwrap(), Value::Integer(_)));
        }
        _ => panic!("expected Table"),
    }
}
