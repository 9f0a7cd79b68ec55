use vstd::prelude::*;

verus! {

/// An error found while reading a TOML document, with the line and column
/// (both counted from 1) at which it was found.
#[derive(Debug, Clone, PartialEq)]
pub struct ParseError {
    pub message: String,
    pub line: u32,
    pub col: u32,
}

impl ParseError {
    /// Builds an error from its message and position.
    pub fn new(message: String, line: u32, col: u32) -> (e: ParseError)
        ensures
            e.message@ == message@,
            e.line == line,
            e.col == col,
    {
        ParseError { message, line, col }
    }

    /// The text `<message> at line <line>, col <col>`.
    pub fn to_display_string(&self) -> (s: String)
        ensures
            s@ == self.message@ + " at line "@ + crate::text::nat_digits(self.line as nat)
                + ", col "@ + crate::text::nat_digits(self.col as nat),
    {
        let mut s = self.message.clone();
        s.append(" at line ");
        crate::text::push_nat(&mut s, self.line as u64);
        s.append(", col ");
        crate::text::push_nat(&mut s, self.col as u64);
        s
    }
}

} // verus!
