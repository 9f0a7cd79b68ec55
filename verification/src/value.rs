use vstd::prelude::*;
use crate::table::Table;

verus! {

/// The offset of an offset date-time: `Z`, or a signed number of minutes.
#[derive(Debug, Clone, PartialEq, Eq, Structural)]
pub enum UtcOffset {
    Z,
    Minutes(i16),
}

/// A calendar date.
#[derive(Debug, Clone, PartialEq, Eq, Structural)]
pub struct LocalDate {
    pub year: u16,
    pub month: u8,
    pub day: u8,
}

/// A time of day, with nanoseconds.
#[derive(Debug, Clone, PartialEq, Eq, Structural)]
pub struct LocalTime {
    pub hour: u8,
    pub minute: u8,
    pub second: u8,
    pub nanosecond: u32,
}

/// A date and time with an offset from UTC.
#[derive(Debug, Clone, PartialEq, Eq, Structural)]
pub struct OffsetDateTime {
    pub date: LocalDate,
    pub time: LocalTime,
    pub offset: UtcOffset,
}

/// A date and time without an offset.
#[derive(Debug, Clone, PartialEq, Eq, Structural)]
pub struct LocalDateTime {
    pub date: LocalDate,
    pub time: LocalTime,
}

/// A TOML value.
///
/// A float is held as its TOML text: an optional `-`, then digits with an
/// optional fraction and exponent (underscores removed), or `inf`, `-inf`,
/// `nan`.
#[derive(Debug, PartialEq)]
pub enum Value {
    String(String),
    Integer(i64),
    Float(String),
    Boolean(bool),
    OffsetDateTime(OffsetDateTime),
    LocalDateTime(LocalDateTime),
    LocalDate(LocalDate),
    LocalTime(LocalTime),
    Array(Vec<Value>),
    Table(Table),
}

/// A value as a mathematical object: strings as character sequences, arrays
/// as sequences, tables as sequences of entries in their order.
pub ghost enum ValueModel {
    String(Seq<char>),
    Integer(i64),
    Float(Seq<char>),
    Boolean(bool),
    OffsetDateTime(OffsetDateTime),
    LocalDateTime(LocalDateTime),
    LocalDate(LocalDate),
    LocalTime(LocalTime),
    Array(Seq<ValueModel>),
    Table(Seq<(Seq<char>, ValueModel)>),
}

} // verus!
