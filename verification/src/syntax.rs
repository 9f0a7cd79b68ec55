//! The syntax of TOML documents over tokens: what reading a key, a value,
//! a key/value line, a header and a whole document gives, starting from a
//! given reader state.
//!
//! An error is a position and a message: the position is `Some(q)` when the
//! error is the lexer's, reported at position `q` of the text, and `None`
//! when it is the parser's or comes from the rules on tables; those are
//! reported at line 1, column 1.
//!
//! A reading step that goes on from a later state is taken only when the
//! measure of the reader shrinks; reading a token other than the end of
//! input always makes it shrink, so the guard never fails (its error, with
//! an empty message, is never given).

use vstd::prelude::*;
use crate::error::ParseError;
use crate::grammar::TokenModel;
use crate::lexer::{LexState, Step, lex_measure, next_step, peek_step, reported_at};
use crate::text::{decimal_digits, nat_digits, str_debug};
use crate::tracker::{NodeModel, append_aot_spec, insert_spec, keyval_effect, open_table_spec, tree_model};
use crate::tracker::{append_aot_msg, insert_msg, keyval_msg, open_table_msg};
use crate::value::{LocalDate, LocalTime, UtcOffset, ValueModel};

verus! {


// ---------------------------------------------------------------------------
// How a token is shown in a message
// ---------------------------------------------------------------------------

/// `LocalDate { year: .., month: .., day: .. }`.
pub open spec fn date_text(d: LocalDate) -> Seq<char> {
    "LocalDate { year: "@ + nat_digits(d.year as nat) + ", month: "@ + nat_digits(d.month as nat)
        + ", day: "@ + nat_digits(d.day as nat) + " }"@
}

/// `LocalTime { hour: .., minute: .., second: .., nanosecond: .. }`.
pub open spec fn time_text(t: LocalTime) -> Seq<char> {
    "LocalTime { hour: "@ + nat_digits(t.hour as nat) + ", minute: "@ + nat_digits(t.minute as nat)
        + ", second: "@ + nat_digits(t.second as nat) + ", nanosecond: "@ + nat_digits(t.nanosecond as nat)
        + " }"@
}

/// `Z` or `Minutes(..)`.
pub open spec fn offset_text(o: UtcOffset) -> Seq<char> {
    match o {
        UtcOffset::Z => "Z"@,
        UtcOffset::Minutes(m) => "Minutes("@ + decimal_digits(m as int) + ")"@,
    }
}

/// A token as an error message shows it: the name of its kind, then what
/// it holds in brackets (strings quoted and escaped as Rust writes them, a
/// float as its text).
#[verifier::opaque]
pub open spec fn token_text(t: TokenModel) -> Seq<char> {
    match t {
        TokenModel::Equals => "Equals"@,
        TokenModel::Dot => "Dot"@,
        TokenModel::Comma => "Comma"@,
        TokenModel::Newline => "Newline"@,
        TokenModel::Eof => "Eof"@,
        TokenModel::LBracket => "LBracket"@,
        TokenModel::RBracket => "RBracket"@,
        TokenModel::DoubleLBracket => "DoubleLBracket"@,
        TokenModel::DoubleRBracket => "DoubleRBracket"@,
        TokenModel::LBrace => "LBrace"@,
        TokenModel::RBrace => "RBrace"@,
        TokenModel::BareKey(x) => "BareKey("@ + str_debug(x) + ")"@,
        TokenModel::BasicString(x) => "BasicString("@ + str_debug(x) + ")"@,
        TokenModel::LiteralString(x) => "LiteralString("@ + str_debug(x) + ")"@,
        TokenModel::MlBasicString(x) => "MlBasicString("@ + str_debug(x) + ")"@,
        TokenModel::MlLiteralString(x) => "MlLiteralString("@ + str_debug(x) + ")"@,
        TokenModel::Integer(n) => "Integer("@ + decimal_digits(n as int) + ")"@,
        TokenModel::Float(x) => "Float("@ + x + ")"@,
        TokenModel::Boolean(b) => if b { "Boolean(true)"@ } else { "Boolean(false)"@ },
        TokenModel::OffsetDateTime(d) => "OffsetDateTimeToken(OffsetDateTime { date: "@ + date_text(d.date)
            + ", time: "@ + time_text(d.time) + ", offset: "@ + offset_text(d.offset) + " })"@,
        TokenModel::LocalDateTime(d) => "LocalDateTimeToken(LocalDateTime { date: "@ + date_text(d.date)
            + ", time: "@ + time_text(d.time) + " })"@,
        TokenModel::LocalDate(d) => "LocalDateToken("@ + date_text(d) + ")"@,
        TokenModel::LocalTime(d) => "LocalTimeToken("@ + time_text(d) + ")"@,
    }
}

/// `what`, then `, found ` and the token `t`.
pub open spec fn found_msg(what: Seq<char>, t: TokenModel) -> Seq<char> {
    what + ", found "@ + token_text(t)
}

/// The next token and the state after it, or the error.
pub open spec fn next_tok(s: Seq<char>, st: LexState) -> Result<(TokenModel, LexState), (Option<int>, Seq<char>)> {
    match next_step(s, st) {
        Step::Tok(t, st2) => Ok((t, st2)),
        Step::Fail(q, m) => Err((Some(q), m)),
    }
}

/// The next token, held back, and the state after looking at it, or the
/// error.
pub open spec fn peek_tok(s: Seq<char>, st: LexState) -> Result<(TokenModel, LexState), (Option<int>, Seq<char>)> {
    match peek_step(s, st) {
        Step::Tok(t, st2) => Ok((t, st2)),
        Step::Fail(q, m) => Err((Some(q), m)),
    }
}

/// `st` with key mode set to `on`.
pub open spec fn with_key_mode(st: LexState, on: bool) -> LexState {
    LexState { key_mode: on, ..st }
}

/// `st2` is a later state than `st`: the measure shrank.
pub open spec fn shrinks(s: Seq<char>, st2: LexState, st: LexState) -> bool {
    0 <= lex_measure(s, st2) < lex_measure(s, st)
}

/// `st2` is no earlier than `st`: the measure did not grow.
pub open spec fn no_growth(s: Seq<char>, st2: LexState, st: LexState) -> bool {
    0 <= lex_measure(s, st2) <= lex_measure(s, st)
}

/// Skips newline tokens; the state after it holds the next other token.
pub open spec fn skip_newlines(s: Seq<char>, st: LexState) -> Result<LexState, (Option<int>, Seq<char>)>
    decreases lex_measure(s, st),
{
    match peek_tok(s, st) {
        Err(e) => Err(e),
        Ok((t, st1)) => if t == TokenModel::Newline {
            match next_tok(s, st1) {
                Err(e) => Err(e),
                Ok((_, st2)) => if shrinks(s, st2, st) {
                    skip_newlines(s, st2)
                } else {
                    Err((None, Seq::empty()))
                },
            }
        } else {
            Ok(st1)
        },
    }
}

/// What is expected where the token `want` is missing.
pub open spec fn expect_what(want: TokenModel) -> Seq<char> {
    if want == TokenModel::Equals {
        "expected '='"@
    } else if want == TokenModel::RBracket {
        "expected ']'"@
    } else {
        "expected ']]'"@
    }
}

/// Takes the token `want`.
pub open spec fn expect_tok(s: Seq<char>, st: LexState, want: TokenModel) -> Result<LexState, (Option<int>, Seq<char>)> {
    match next_tok(s, st) {
        Err(e) => Err(e),
        Ok((t, st1)) => if t == want {
            Ok(st1)
        } else {
            Err((None, found_msg(expect_what(want), t)))
        },
    }
}

/// A newline, which is taken, or the end of input, which is left.
pub open spec fn newline_or_eof(s: Seq<char>, st: LexState) -> Result<LexState, (Option<int>, Seq<char>)> {
    match peek_tok(s, st) {
        Err(e) => Err(e),
        Ok((t, st1)) => if t == TokenModel::Newline {
            match next_tok(s, st1) {
                Err(e) => Err(e),
                Ok((_, st2)) => Ok(st2),
            }
        } else if t == TokenModel::Eof {
            Ok(st1)
        } else {
            Err((None, found_msg("expected newline or EOF after value"@, t)))
        },
    }
}

/// The key a token names: a bare key, a one-line string, or digits.
pub open spec fn key_of(t: TokenModel) -> Option<Seq<char>> {
    match t {
        TokenModel::BareKey(k) => Some(k),
        TokenModel::BasicString(k) => Some(k),
        TokenModel::LiteralString(k) => Some(k),
        TokenModel::Integer(n) => Some(decimal_digits(n as int)),
        _ => None,
    }
}

/// One segment of a key.
pub open spec fn simple_key(s: Seq<char>, st: LexState) -> Result<(Seq<char>, LexState), (Option<int>, Seq<char>)> {
    match next_tok(s, st) {
        Err(e) => Err(e),
        Ok((t, st1)) => match key_of(t) {
            Some(k) => Ok((k, st1)),
            None => Err((None, found_msg("expected key"@, t))),
        },
    }
}

/// The segments after the first of a dotted key, each after a `.`, added to
/// `segs`.
pub open spec fn key_rest(s: Seq<char>, st: LexState, segs: Seq<Seq<char>>) -> Result<(Seq<Seq<char>>, LexState), (Option<int>, Seq<char>)>
    decreases lex_measure(s, st),
{
    match peek_tok(s, st) {
        Err(e) => Err(e),
        Ok((t, st1)) => if t == TokenModel::Dot {
            match next_tok(s, st1) {
                Err(e) => Err(e),
                Ok((_, st2)) => match simple_key(s, st2) {
                    Err(e) => Err(e),
                    Ok((k, st3)) => if shrinks(s, st3, st) {
                        key_rest(s, st3, segs.push(k))
                    } else {
                        Err((None, Seq::empty()))
                    },
                },
            }
        } else {
            Ok((segs, st1))
        },
    }
}

/// A key, read in key mode: its segments.
pub open spec fn key_spec(s: Seq<char>, st: LexState) -> Result<(Seq<Seq<char>>, LexState), (Option<int>, Seq<char>)> {
    match simple_key(s, with_key_mode(st, true)) {
        Err(e) => Err(e),
        Ok((k, st1)) => match key_rest(s, st1, seq![k]) {
            Err(e) => Err(e),
            Ok((segs, st2)) => Ok((segs, with_key_mode(st2, false))),
        },
    }
}

/// The value a token stands for by itself.
pub open spec fn scalar_of(t: TokenModel) -> Option<ValueModel> {
    match t {
        TokenModel::BasicString(x) => Some(ValueModel::String(x)),
        TokenModel::LiteralString(x) => Some(ValueModel::String(x)),
        TokenModel::MlBasicString(x) => Some(ValueModel::String(x)),
        TokenModel::MlLiteralString(x) => Some(ValueModel::String(x)),
        TokenModel::Integer(n) => Some(ValueModel::Integer(n)),
        TokenModel::Float(x) => Some(ValueModel::Float(x)),
        TokenModel::Boolean(b) => Some(ValueModel::Boolean(b)),
        TokenModel::OffsetDateTime(d) => Some(ValueModel::OffsetDateTime(d)),
        TokenModel::LocalDateTime(d) => Some(ValueModel::LocalDateTime(d)),
        TokenModel::LocalDate(d) => Some(ValueModel::LocalDate(d)),
        TokenModel::LocalTime(d) => Some(ValueModel::LocalTime(d)),
        _ => None,
    }
}

/// A value: a scalar token, an array after `[` (a `[[` opens two), or an
/// inline table after `{`.
pub open spec fn value_spec(s: Seq<char>, st: LexState) -> Result<(ValueModel, LexState), (Option<int>, Seq<char>)>
    decreases lex_measure(s, st), 0int,
{
    match next_tok(s, st) {
        Err(e) => Err(e),
        Ok((t, st1)) => match scalar_of(t) {
            Some(v) => Ok((v, st1)),
            None => if t == TokenModel::LBracket {
                if shrinks(s, st1, st) {
                    array_spec(s, st1, Seq::empty())
                } else {
                    Err((None, Seq::empty()))
                }
            } else if t == TokenModel::DoubleLBracket {
                let st2 = LexState { peeked: Some(TokenModel::LBracket), ..st1 };
                if shrinks(s, st2, st) {
                    array_spec(s, st2, Seq::empty())
                } else {
                    Err((None, Seq::empty()))
                }
            } else if t == TokenModel::LBrace {
                if shrinks(s, st1, st) {
                    inline_spec(s, st1)
                } else {
                    Err((None, Seq::empty()))
                }
            } else {
                Err((None, found_msg("expected value"@, t)))
            },
        },
    }
}

/// Closes an array whose `]` comes as the first half of a `]]`: the `]]` is
/// taken and a `]` is held back.
pub open spec fn close_on_double(s: Seq<char>, st: LexState, acc: Seq<ValueModel>) -> Result<(ValueModel, LexState), (Option<int>, Seq<char>)> {
    match next_tok(s, st) {
        Err(e) => Err(e),
        Ok((_, st1)) => Ok((ValueModel::Array(acc), LexState { peeked: Some(TokenModel::RBracket), ..st1 })),
    }
}

/// The rest of an array whose elements so far are `acc`: newlines are
/// skipped around elements, elements are separated by commas, a trailing
/// comma is allowed.
pub open spec fn array_spec(s: Seq<char>, st: LexState, acc: Seq<ValueModel>) -> Result<(ValueModel, LexState), (Option<int>, Seq<char>)>
    decreases lex_measure(s, st), 1int,
{
    match skip_newlines(s, st) {
        Err(e) => Err(e),
        Ok(st1) => match peek_tok(s, st1) {
            Err(e) => Err(e),
            Ok((t, st2)) => if t == TokenModel::DoubleRBracket {
                close_on_double(s, st2, acc)
            } else if t == TokenModel::RBracket {
                match next_tok(s, st2) {
                    Err(e) => Err(e),
                    Ok((_, st3)) => Ok((ValueModel::Array(acc), st3)),
                }
            } else if no_growth(s, st2, st) {
                match value_spec(s, st2) {
                    Err(e) => Err(e),
                    Ok((v, st3)) => match skip_newlines(s, st3) {
                        Err(e) => Err(e),
                        Ok(st4) => match peek_tok(s, st4) {
                            Err(e) => Err(e),
                            Ok((u, st5)) => if u == TokenModel::Comma {
                                match next_tok(s, st5) {
                                    Err(e) => Err(e),
                                    Ok((_, st6)) => if shrinks(s, st6, st) {
                                        array_spec(s, st6, acc.push(v))
                                    } else {
                                        Err((None, Seq::empty()))
                                    },
                                }
                            } else if u == TokenModel::RBracket {
                                match next_tok(s, st5) {
                                    Err(e) => Err(e),
                                    Ok((_, st6)) => Ok((ValueModel::Array(acc.push(v)), st6)),
                                }
                            } else if u == TokenModel::DoubleRBracket {
                                close_on_double(s, st5, acc.push(v))
                            } else {
                                Err((None, "expected ',' or ']' in array"@))
                            },
                        },
                    },
                }
            } else {
                Err((None, Seq::empty()))
            },
        },
    }
}

/// An inline table after its `{`. The token after `{`, and after each
/// comma, is read as a key would be.
pub open spec fn inline_spec(s: Seq<char>, st: LexState) -> Result<(ValueModel, LexState), (Option<int>, Seq<char>)>
    decreases lex_measure(s, st), 2int,
{
    match peek_tok(s, with_key_mode(st, true)) {
        Err(e) => Err(e),
        Ok((t, st0)) => if t == TokenModel::RBrace {
            let st1 = with_key_mode(st0, false);
            match next_tok(s, st1) {
                Err(e) => Err(e),
                Ok((_, st2)) => Ok((ValueModel::Table(Seq::empty()), st2)),
            }
        } else if no_growth(s, with_key_mode(st0, false), st) {
            inline_pairs(s, with_key_mode(st0, false), seq![Seq::<(Seq<char>, crate::tracker::TrackedModel)>::empty()])
        } else {
            Err((None, Seq::empty()))
        },
    }
}

/// The key/value pairs of an inline table from `st` on, its tables so far
/// being `n`: pairs are separated by commas, with no trailing comma, and the
/// table ends with `}` on the same line.
pub open spec fn inline_pairs(s: Seq<char>, st: LexState, n: Seq<NodeModel>) -> Result<(ValueModel, LexState), (Option<int>, Seq<char>)>
    decreases lex_measure(s, st), 1int,
{
    match key_spec(s, st) {
        Err(e) => Err(e),
        Ok((segs, st1)) => match expect_tok(s, st1, TokenModel::Equals) {
            Err(e) => Err(e),
            Ok(st2) => if no_growth(s, st2, st) {
                match value_spec(s, st2) {
                    Err(e) => Err(e),
                    Ok((v, st3)) => match insert_spec(n, 0, segs, v, true) {
                        None => Err((None, insert_msg(n, 0, segs, true))),
                        Some(n2) => match peek_tok(s, st3) {
                            Err(e) => Err(e),
                            Ok((u, st4)) => if u == TokenModel::Comma {
                                match next_tok(s, st4) {
                                    Err(e) => Err(e),
                                    Ok((_, st5)) => match peek_tok(s, with_key_mode(st5, true)) {
                                        Err(e) => Err(e),
                                        Ok((w, st6k)) => if w == TokenModel::RBrace {
                                            Err((None, "trailing comma not allowed in inline table"@))
                                        } else if shrinks(s, with_key_mode(st6k, false), st) {
                                            inline_pairs(s, with_key_mode(st6k, false), n2)
                                        } else {
                                            Err((None, Seq::empty()))
                                        },
                                    },
                                }
                            } else if u == TokenModel::RBrace {
                                match next_tok(s, st4) {
                                    Err(e) => Err(e),
                                    Ok((_, st5)) => Ok((ValueModel::Table(tree_model(n2, 0)), st5)),
                                }
                            } else if u == TokenModel::Newline {
                                Err((None, "newlines not allowed inside inline table"@))
                            } else {
                                Err((None, "expected ',' or '}' in inline table"@))
                            },
                        },
                    },
                }
            } else {
                Err((None, Seq::empty()))
            },
        },
    }
}

/// A `key = value` line of a document, with the tables `n` and the current
/// table at `path`: the tables after it.
pub open spec fn keyval_spec(s: Seq<char>, st: LexState, n: Seq<NodeModel>, path: Seq<Seq<char>>) -> Result<(Seq<NodeModel>, LexState), (Option<int>, Seq<char>)> {
    match key_spec(s, st) {
        Err(e) => Err(e),
        Ok((segs, st1)) => match expect_tok(s, st1, TokenModel::Equals) {
            Err(e) => Err(e),
            Ok(st2) => match value_spec(s, st2) {
                Err(e) => Err(e),
                Ok((v, st3)) => match newline_or_eof(s, st3) {
                    Err(e) => Err(e),
                    Ok(st4) => match keyval_effect(n, path, segs, v) {
                        None => Err((None, keyval_msg(n, path, segs))),
                        Some(n2) => Ok((n2, st4)),
                    },
                },
            },
        },
    }
}

/// A `[table]` header after its `[`: the tables after it, the new current
/// path.
pub open spec fn table_header_spec(s: Seq<char>, st: LexState, n: Seq<NodeModel>) -> Result<(Seq<NodeModel>, Seq<Seq<char>>, LexState), (Option<int>, Seq<char>)> {
    match key_spec(s, st) {
        Err(e) => Err(e),
        Ok((segs, st1)) => match expect_tok(s, st1, TokenModel::RBracket) {
            Err(e) => Err(e),
            Ok(st2) => match newline_or_eof(s, st2) {
                Err(e) => Err(e),
                Ok(st3) => match open_table_spec(n, segs) {
                    None => Err((None, open_table_msg(n, segs))),
                    Some(n2) => Ok((n2, segs, st3)),
                },
            },
        },
    }
}

/// A `[[array]]` header after its `[[`: the tables after it, the new
/// current path.
pub open spec fn aot_header_spec(s: Seq<char>, st: LexState, n: Seq<NodeModel>) -> Result<(Seq<NodeModel>, Seq<Seq<char>>, LexState), (Option<int>, Seq<char>)> {
    match key_spec(s, st) {
        Err(e) => Err(e),
        Ok((segs, st1)) => match expect_tok(s, st1, TokenModel::DoubleRBracket) {
            Err(e) => Err(e),
            Ok(st2) => match newline_or_eof(s, st2) {
                Err(e) => Err(e),
                Ok(st3) => match append_aot_spec(n, segs) {
                    None => Err((None, append_aot_msg(n, segs))),
                    Some(n2) => Ok((n2, segs, st3)),
                },
            },
        },
    }
}

/// The lines of a document from `st` on, with the tables `n` and the
/// current table at `path`: the tables at the end of input. Blank lines are
/// skipped; each other line is a header or a key/value pair.
pub open spec fn document_spec(s: Seq<char>, st: LexState, n: Seq<NodeModel>, path: Seq<Seq<char>>) -> Result<Seq<NodeModel>, (Option<int>, Seq<char>)>
    decreases lex_measure(s, st),
{
    match skip_newlines(s, with_key_mode(st, true)) {
        Err(e) => Err(e),
        Ok(st1) => match peek_tok(s, st1) {
            Err(e) => Err(e),
            Ok((t, st2)) => if t == TokenModel::Eof {
                Ok(n)
            } else if t == TokenModel::LBracket || t == TokenModel::DoubleLBracket {
                match next_tok(s, with_key_mode(st2, false)) {
                    Err(e) => Err(e),
                    Ok((_, st3)) => {
                        let h = if t == TokenModel::LBracket {
                            table_header_spec(s, st3, n)
                        } else {
                            aot_header_spec(s, st3, n)
                        };
                        match h {
                            Err(e) => Err(e),
                            Ok((n2, p2, st4)) => if shrinks(s, st4, st) {
                                document_spec(s, st4, n2, p2)
                            } else {
                                Err((None, Seq::empty()))
                            },
                        }
                    },
                }
            } else {
                match keyval_spec(s, st2, n, path) {
                    Err(e) => Err(e),
                    Ok((n2, st3)) => if shrinks(s, st3, st) {
                        document_spec(s, st3, n2, path)
                    } else {
                        Err((None, Seq::empty()))
                    },
                }
            },
        },
    }
}

/// The reader at the start of `s`.
pub open spec fn start(s: Seq<char>) -> LexState {
    LexState { pos: 0, peeked: None, key_mode: false }
}

/// What reading the document `s` gives: its root table, or the error.
pub open spec fn parse_spec(s: Seq<char>) -> Result<ValueModel, (Option<int>, Seq<char>)> {
    match document_spec(s, start(s), seq![Seq::<(Seq<char>, crate::tracker::TrackedModel)>::empty()], Seq::empty()) {
        Ok(n) => Ok(ValueModel::Table(tree_model(n, 0))),
        Err(e) => Err(e),
    }
}

/// `e` is reported where `x` says, with the message `x.1`, which is not
/// empty: at position `q` of `s` when `x.0` is `Some(q)`, or at line 1,
/// column 1.
pub open spec fn error_as(e: ParseError, s: Seq<char>, x: (Option<int>, Seq<char>)) -> bool {
    match x.0 {
        Some(q) => reported_at(e, s, q, x.1),
        None => e.line == 1 && e.col == 1 && e.message@ == x.1 && x.1.len() > 0,
    }
}

} // verus!
