//! A TOML reader and writer whose lexer, parser and printer carry contracts
//! checked by Verus.

pub mod error;
pub mod grammar;
pub mod layout;
pub mod lexer;
pub mod parser;
pub mod printer;
pub mod roundtrip;
pub mod rules;
pub mod sections;
pub mod syntax;
pub mod table;
pub mod text;
pub mod tracker;
pub mod value;

pub use error::ParseError;
pub use table::Table;
pub use value::Value;

use vstd::prelude::*;
use crate::layout::document_text;
use crate::parser::Parser;
use crate::printer::PrettyPrinter;
use crate::syntax::{error_as, parse_spec};
use crate::table::value_model;

verus! {

/// Reads a TOML document into its root table. A document that is not
/// read is answered with an error that has a message and says where.
pub fn parse(input: &str) -> (r: Result<Value, ParseError>)
    requires
        input@.len() < u32::MAX,
    ensures
        match parse_spec(input@) {
            Ok(v) => r is Ok && value_model(r->Ok_0) == v,
            Err(x) => r is Err && error_as(r->Err_0, input@, x),
        },
        r is Err ==> r->Err_0.message@.len() > 0,
{
    Parser::new(input).parse()
}

/// Writes a value as a TOML document.
pub fn to_toml_string(value: &Value) -> (s: String)
    ensures
        s@ == document_text(value_model(*value)),
{
    PrettyPrinter::print(value)
}

} // verus!
