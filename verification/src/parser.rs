//! Reads a TOML document: keys, values, headers and key/value lines, each
//! function held to its part of the syntax in `syntax`.

use vstd::prelude::*;
use crate::error::ParseError;
use crate::grammar::TokenModel;
use crate::lexer::{Lexer, LexState, Token, lex_measure, weight};
use crate::syntax::{
    array_spec, document_spec, error_as, expect_tok, inline_pairs, inline_spec, key_rest, key_spec,
    newline_or_eof, next_tok, no_growth, peek_tok, shrinks, simple_key, skip_newlines, start,
    value_spec, with_key_mode, aot_header_spec, keyval_spec, table_header_spec,
    date_text, found_msg, offset_text, time_text, token_text, };
use crate::table::{value_model, values_model};
use crate::text::{debug_str, push_decimal, push_nat, str_debug};
use crate::value::{LocalDate, LocalTime, UtcOffset};
use crate::tracker::{Arena, NodeModel, TableTracker, TrackedModel, arena_wf, strs, tree_model};
use crate::value::{Value, ValueModel};

verus! {

/// The kind of a token, as far as the parser tells tokens apart by kind.
#[derive(Clone, Copy, PartialEq, Eq, Structural)]
pub enum Kind {
    Newline,
    Eof,
    Dot,
    Comma,
    Equals,
    LBracket,
    RBracket,
    DoubleLBracket,
    DoubleRBracket,
    LBrace,
    RBrace,
    Other,
}

/// The kind of the token `t`.
pub open spec fn kind(t: TokenModel) -> Kind {
    match t {
        TokenModel::Newline => Kind::Newline,
        TokenModel::Eof => Kind::Eof,
        TokenModel::Dot => Kind::Dot,
        TokenModel::Comma => Kind::Comma,
        TokenModel::Equals => Kind::Equals,
        TokenModel::LBracket => Kind::LBracket,
        TokenModel::RBracket => Kind::RBracket,
        TokenModel::DoubleLBracket => Kind::DoubleLBracket,
        TokenModel::DoubleRBracket => Kind::DoubleRBracket,
        TokenModel::LBrace => Kind::LBrace,
        TokenModel::RBrace => Kind::RBrace,
        _ => Kind::Other,
    }
}

proof fn lemma_kind(t: TokenModel)
    ensures
        (kind(t) == Kind::Newline) == (t == TokenModel::Newline),
        (kind(t) == Kind::Eof) == (t == TokenModel::Eof),
        (kind(t) == Kind::Dot) == (t == TokenModel::Dot),
        (kind(t) == Kind::Comma) == (t == TokenModel::Comma),
        (kind(t) == Kind::Equals) == (t == TokenModel::Equals),
        (kind(t) == Kind::LBracket) == (t == TokenModel::LBracket),
        (kind(t) == Kind::RBracket) == (t == TokenModel::RBracket),
        (kind(t) == Kind::DoubleLBracket) == (t == TokenModel::DoubleLBracket),
        (kind(t) == Kind::DoubleRBracket) == (t == TokenModel::DoubleRBracket),
        (kind(t) == Kind::LBrace) == (t == TokenModel::LBrace),
        (kind(t) == Kind::RBrace) == (t == TokenModel::RBrace),
{
}

proof fn lemma_peek_kind(s: Seq<char>, st: LexState)
    ensures
        match peek_tok(s, st) {
            Ok((t, _)) => {
                &&& (kind(t) == Kind::Newline) == (t == TokenModel::Newline)
                &&& (kind(t) == Kind::Eof) == (t == TokenModel::Eof)
                &&& (kind(t) == Kind::Dot) == (t == TokenModel::Dot)
                &&& (kind(t) == Kind::Comma) == (t == TokenModel::Comma)
                &&& (kind(t) == Kind::RBracket) == (t == TokenModel::RBracket)
                &&& (kind(t) == Kind::LBracket) == (t == TokenModel::LBracket)
                &&& (kind(t) == Kind::DoubleLBracket) == (t == TokenModel::DoubleLBracket)
                &&& (kind(t) == Kind::DoubleRBracket) == (t == TokenModel::DoubleRBracket)
                &&& (kind(t) == Kind::RBrace) == (t == TokenModel::RBrace)
            },
            Err(_) => true,
        },
{
    match peek_tok(s, st) {
        Ok((t, _)) => {
            lemma_kind(t);
        },
        Err(_) => {},
    }
}

fn kind_of(t: &Token) -> (k: Kind)
    ensures
        k == kind(t.model()),
{
    match t {
        Token::Newline => Kind::Newline,
        Token::Eof => Kind::Eof,
        Token::Dot => Kind::Dot,
        Token::Comma => Kind::Comma,
        Token::Equals => Kind::Equals,
        Token::LBracket => Kind::LBracket,
        Token::RBracket => Kind::RBracket,
        Token::DoubleLBracket => Kind::DoubleLBracket,
        Token::DoubleRBracket => Kind::DoubleRBracket,
        Token::LBrace => Kind::LBrace,
        Token::RBrace => Kind::RBrace,
        _ => Kind::Other,
    }
}

fn push_date(m: &mut String, d: &LocalDate)
    ensures
        final(m)@ == old(m)@ + date_text(*d),
{
    let ghost m0 = m@;
    m.append("LocalDate { year: ");
    push_nat(m, d.year as u64);
    m.append(", month: ");
    push_nat(m, d.month as u64);
    m.append(", day: ");
    push_nat(m, d.day as u64);
    m.append(" }");
    assert(m@ =~= m0 + date_text(*d));
}

fn push_time(m: &mut String, t: &LocalTime)
    ensures
        final(m)@ == old(m)@ + time_text(*t),
{
    let ghost m0 = m@;
    m.append("LocalTime { hour: ");
    push_nat(m, t.hour as u64);
    m.append(", minute: ");
    push_nat(m, t.minute as u64);
    m.append(", second: ");
    push_nat(m, t.second as u64);
    m.append(", nanosecond: ");
    push_nat(m, t.nanosecond as u64);
    m.append(" }");
    assert(m@ =~= m0 + time_text(*t));
}

fn push_offset(m: &mut String, o: &UtcOffset)
    ensures
        final(m)@ == old(m)@ + offset_text(*o),
{
    let ghost m0 = m@;
    match o {
        UtcOffset::Z => {
            m.append("Z");
        },
        UtcOffset::Minutes(x) => {
            m.append("Minutes(");
            push_decimal(m, *x as i64);
            m.append(")");
        },
    }
    assert(m@ =~= m0 + offset_text(*o));
}

/// `prefix`, the text of `x` quoted and escaped, then `)`.
fn push_str_token(m: &mut String, prefix: &str, x: &String)
    ensures
        final(m)@ == old(m)@ + prefix@ + str_debug(x@) + ")"@,
{
    let ghost m0 = m@;
    m.append(prefix);
    let d = debug_str(x.as_str());
    m.append(d.as_str());
    m.append(")");
    assert(m@ =~= m0 + prefix@ + str_debug(x@) + ")"@);
}

/// The token `t` as an error message shows it.
fn token_debug(t: &Token) -> (m: String)
    ensures
        m@ == token_text(t.model()),
{
    let mut m = String::new();
    assert(m@ =~= Seq::<char>::empty());
    proof {
        reveal(token_text);
    }
    match t {
        Token::Equals => {
            m.append("Equals");
            assert(m@ =~= token_text(t.model()));
        },
        Token::Dot => {
            m.append("Dot");
            assert(m@ =~= token_text(t.model()));
        },
        Token::Comma => {
            m.append("Comma");
            assert(m@ =~= token_text(t.model()));
        },
        Token::Newline => {
            m.append("Newline");
            assert(m@ =~= token_text(t.model()));
        },
        Token::Eof => {
            m.append("Eof");
            assert(m@ =~= token_text(t.model()));
        },
        Token::LBracket => {
            m.append("LBracket");
            assert(m@ =~= token_text(t.model()));
        },
        Token::RBracket => {
            m.append("RBracket");
            assert(m@ =~= token_text(t.model()));
        },
        Token::DoubleLBracket => {
            m.append("DoubleLBracket");
            assert(m@ =~= token_text(t.model()));
        },
        Token::DoubleRBracket => {
            m.append("DoubleRBracket");
            assert(m@ =~= token_text(t.model()));
        },
        Token::LBrace => {
            m.append("LBrace");
            assert(m@ =~= token_text(t.model()));
        },
        Token::RBrace => {
            m.append("RBrace");
            assert(m@ =~= token_text(t.model()));
        },
        Token::BareKey(x) => {
            push_str_token(&mut m, "BareKey(", x);
            assert(m@ =~= token_text(t.model()));
        },
        Token::BasicString(x) => {
            push_str_token(&mut m, "BasicString(", x);
            assert(m@ =~= token_text(t.model()));
        },
        Token::LiteralString(x) => {
            push_str_token(&mut m, "LiteralString(", x);
            assert(m@ =~= token_text(t.model()));
        },
        Token::MlBasicString(x) => {
            push_str_token(&mut m, "MlBasicString(", x);
            assert(m@ =~= token_text(t.model()));
        },
        Token::MlLiteralString(x) => {
            push_str_token(&mut m, "MlLiteralString(", x);
            assert(m@ =~= token_text(t.model()));
        },
        Token::Integer(n) => {
            m.append("Integer(");
            push_decimal(&mut m, *n);
            m.append(")");
            assert(m@ =~= token_text(t.model()));
        },
        Token::Float(x) => {
            m.append("Float(");
            m.append(x.as_str());
            m.append(")");
            assert(m@ =~= token_text(t.model()));
        },
        Token::Boolean(b) => {
            if *b {
                m.append("Boolean(true)");
            } else {
                m.append("Boolean(false)");
            }
            assert(m@ =~= token_text(t.model()));
        },
        Token::OffsetDateTimeToken(d) => {
            m.append("OffsetDateTimeToken(OffsetDateTime { date: ");
            push_date(&mut m, &d.date);
            m.append(", time: ");
            push_time(&mut m, &d.time);
            m.append(", offset: ");
            push_offset(&mut m, &d.offset);
            m.append(" })");
            assert(m@ =~= token_text(t.model()));
        },
        Token::LocalDateTimeToken(d) => {
            m.append("LocalDateTimeToken(LocalDateTime { date: ");
            push_date(&mut m, &d.date);
            m.append(", time: ");
            push_time(&mut m, &d.time);
            m.append(" })");
            assert(m@ =~= token_text(t.model()));
        },
        Token::LocalDateToken(d) => {
            m.append("LocalDateToken(");
            push_date(&mut m, d);
            m.append(")");
            assert(m@ =~= token_text(t.model()));
        },
        Token::LocalTimeToken(d) => {
            m.append("LocalTimeToken(");
            push_time(&mut m, d);
            m.append(")");
            assert(m@ =~= token_text(t.model()));
        },
    }
    assert(m@ =~= token_text(t.model()));
    m
}

/// An error at line 1, column 1 whose message is `what`, then `, found `
/// and the name of `t`.
fn unexpected(what: &str, t: &Token) -> (e: ParseError)
    ensures
        e.line == 1 && e.col == 1 && e.message@ == found_msg(what@, t.model()),
        e.message@.len() > 0,
{
    proof {
        reveal_strlit(", found ");
    }
    let mut m = String::from_str(what);
    m.append(", found ");
    let d = token_debug(t);
    m.append(d.as_str());
    ParseError::new(m, 1, 1)
}

/// An error at line 1, column 1 with message `what`.
fn error_here(what: &str) -> (e: ParseError)
    requires
        what@.len() > 0,
    ensures
        e.line == 1 && e.col == 1 && e.message@ == what@,
        e.message@.len() > 0,
{
    ParseError::new(String::from_str(what), 1, 1)
}

/// `r` and the reader's state `st` are what `x` says of a value.
pub open spec fn value_as(r: Result<Value, ParseError>, st: LexState, s: Seq<char>, x: Result<(ValueModel, LexState), (Option<int>, Seq<char>)>) -> bool {
    match x {
        Ok((v, st2)) => r is Ok && value_model(r->Ok_0) == v && st == st2,
        Err(q) => r is Err && error_as(r->Err_0, s, q),
    }
}

/// `r` and the reader's state `st` are what `x` says of a step that yields
/// nothing but a new state.
pub open spec fn unit_as(r: Result<(), ParseError>, st: LexState, s: Seq<char>, x: Result<LexState, (Option<int>, Seq<char>)>) -> bool {
    match x {
        Ok(st2) => r is Ok && st == st2,
        Err(q) => r is Err && error_as(r->Err_0, s, q),
    }
}

/// Reads a TOML document into a table.
pub struct Parser {
    lexer: Lexer,
    tracker: TableTracker,
}

impl Parser {
    /// The text being read.
    pub closed spec fn text(&self) -> Seq<char> {
        self.lexer.text()
    }

    /// Where the reader stands.
    pub closed spec fn state(&self) -> LexState {
        self.lexer.state()
    }

    /// The tables read so far.
    pub closed spec fn nodes(&self) -> Seq<NodeModel> {
        self.tracker.nodes()
    }

    /// The path of the current table.
    pub closed spec fn path(&self) -> Seq<Seq<char>> {
        self.tracker.path()
    }

    pub closed spec fn wf(&self) -> bool {
        self.lexer.wf() && self.tracker.wf()
    }

    /// A parser at the start of `input`, with an empty root table.
    pub fn new(input: &str) -> (p: Parser)
        requires
            input@.len() < u32::MAX,
        ensures
            p.wf(),
            p.text() == input@,
            p.state() == start(input@),
            p.nodes() == seq![Seq::<(Seq<char>, TrackedModel)>::empty()],
            p.path() == Seq::<Seq<char>>::empty(),
    {
        Parser { lexer: Lexer::new(input), tracker: TableTracker::new() }
    }

    /// The next token.
    fn next(&mut self) -> (r: Result<Token, ParseError>)
        requires
            old(self).wf(),
        ensures
            final(self).wf(),
            final(self).text() == old(self).text(),
            final(self).nodes() == old(self).nodes(),
            final(self).path() == old(self).path(),
            match next_tok(old(self).text(), old(self).state()) {
                Ok((t, st)) => r is Ok && r->Ok_0.model() == t && final(self).state() == st,
                Err(x) => r is Err && error_as(r->Err_0, old(self).text(), x),
            },
            0 <= lex_measure(final(self).text(), final(self).state()),
            r is Ok ==> lex_measure(final(self).text(), final(self).state()) + weight(r->Ok_0.model())
                <= lex_measure(old(self).text(), old(self).state()),
    {
        proof { self.lexer.lemma_measure(); }
        let r = self.lexer.next_token();
        proof { self.lexer.lemma_measure(); }
        r
    }

    /// The kind of the next token, which is held back.
    fn peek_kind(&mut self) -> (r: Result<Kind, ParseError>)
        requires
            old(self).wf(),
        ensures
            final(self).wf(),
            final(self).text() == old(self).text(),
            final(self).nodes() == old(self).nodes(),
            final(self).path() == old(self).path(),
            match peek_tok(old(self).text(), old(self).state()) {
                Ok((t, st)) => r == Ok::<Kind, ParseError>(kind(t)) && final(self).state() == st,
                Err(x) => r is Err && error_as(r->Err_0, old(self).text(), x),
            },
            no_growth(old(self).text(), final(self).state(), old(self).state()),
    {
        proof { self.lexer.lemma_measure(); }
        let r = match self.lexer.peek_token() {
            Ok(t) => Ok(kind_of(t)),
            Err(e) => Err(e),
        };
        proof { self.lexer.lemma_measure(); }
        r
    }

    /// Sets whether digits followed by `.` are read as key segments.
    fn set_key_mode(&mut self, on: bool)
        requires
            old(self).wf(),
        ensures
            final(self).wf(),
            final(self).text() == old(self).text(),
            final(self).nodes() == old(self).nodes(),
            final(self).path() == old(self).path(),
            final(self).state() == with_key_mode(old(self).state(), on),
    {
        self.lexer.set_key_mode(on);
    }

    /// Holds `tok` back, to be read again.
    fn push_back(&mut self, tok: Token)
        requires
            old(self).wf(),
            old(self).state().peeked is None,
        ensures
            final(self).wf(),
            final(self).text() == old(self).text(),
            final(self).nodes() == old(self).nodes(),
            final(self).path() == old(self).path(),
            final(self).state() == (LexState { peeked: Some(tok.model()), ..old(self).state() }),
    {
        self.lexer.push_back(tok);
    }

    /// Skips newline tokens.
    fn skip_newline_tokens(&mut self) -> (r: Result<(), ParseError>)
        requires
            old(self).wf(),
        ensures
            final(self).wf(),
            final(self).text() == old(self).text(),
            final(self).nodes() == old(self).nodes(),
            final(self).path() == old(self).path(),
            unit_as(r, final(self).state(), old(self).text(), skip_newlines(old(self).text(), old(self).state())),
            r is Ok ==> no_growth(old(self).text(), final(self).state(), old(self).state()),
    {
        let ghost s = self.text();
        let ghost st0 = self.state();
        proof { self.lexer.lemma_measure(); }
        loop
            invariant
                self.wf(),
                s == old(self).text(),
                st0 == old(self).state(),
                self.text() == s,
                self.nodes() == old(self).nodes(),
                self.path() == old(self).path(),
                no_growth(s, self.state(), st0),
                skip_newlines(s, self.state()) == skip_newlines(s, st0),
            decreases lex_measure(s, self.state()),
        {
            let ghost st = self.state();
            let k = match self.peek_kind() {
                Ok(k) => k,
                Err(e) => {
                    return Err(e);
                },
            };
            proof {
                lemma_peek_kind(s, st);
            }
            if k == Kind::Newline {
                match self.next() {
                    Ok(_) => {},
                    Err(e) => {
                        return Err(e);
                    },
                }
            } else {
                return Ok(());
            }
        }
    }

    fn expect_equals(&mut self) -> (r: Result<(), ParseError>)
        requires
            old(self).wf(),
        ensures
            final(self).wf(),
            final(self).text() == old(self).text(),
            final(self).nodes() == old(self).nodes(),
            final(self).path() == old(self).path(),
            unit_as(r, final(self).state(), old(self).text(), expect_tok(old(self).text(), old(self).state(), TokenModel::Equals)),
            r is Ok ==> shrinks(old(self).text(), final(self).state(), old(self).state()),
    {
        match self.next() {
            Ok(Token::Equals) => Ok(()),
            Ok(other) => Err(unexpected("expected '='", &other)),
            Err(e) => Err(e),
        }
    }

    fn expect_rbracket(&mut self) -> (r: Result<(), ParseError>)
        requires
            old(self).wf(),
        ensures
            final(self).wf(),
            final(self).text() == old(self).text(),
            final(self).nodes() == old(self).nodes(),
            final(self).path() == old(self).path(),
            unit_as(r, final(self).state(), old(self).text(), expect_tok(old(self).text(), old(self).state(), TokenModel::RBracket)),
            r is Ok ==> shrinks(old(self).text(), final(self).state(), old(self).state()),
    {
        match self.next() {
            Ok(Token::RBracket) => Ok(()),
            Ok(other) => Err(unexpected("expected ']'", &other)),
            Err(e) => Err(e),
        }
    }

    fn expect_double_rbracket(&mut self) -> (r: Result<(), ParseError>)
        requires
            old(self).wf(),
        ensures
            final(self).wf(),
            final(self).text() == old(self).text(),
            final(self).nodes() == old(self).nodes(),
            final(self).path() == old(self).path(),
            unit_as(r, final(self).state(), old(self).text(), expect_tok(old(self).text(), old(self).state(), TokenModel::DoubleRBracket)),
            r is Ok ==> shrinks(old(self).text(), final(self).state(), old(self).state()),
    {
        match self.next() {
            Ok(Token::DoubleRBracket) => Ok(()),
            Ok(other) => Err(unexpected("expected ']]'", &other)),
            Err(e) => Err(e),
        }
    }

    /// A newline, which is taken, or the end of input, which is left.
    fn require_newline_or_eof(&mut self) -> (r: Result<(), ParseError>)
        requires
            old(self).wf(),
        ensures
            final(self).wf(),
            final(self).text() == old(self).text(),
            final(self).nodes() == old(self).nodes(),
            final(self).path() == old(self).path(),
            unit_as(r, final(self).state(), old(self).text(), newline_or_eof(old(self).text(), old(self).state())),
            r is Ok ==> no_growth(old(self).text(), final(self).state(), old(self).state()),
    {
        let ghost s = self.text();
        let ghost st = self.state();
        proof { self.lexer.lemma_measure(); }
        let k = match self.peek_kind() {
            Ok(k) => k,
            Err(e) => {
                return Err(e);
            },
        };
        proof {
            lemma_peek_kind(s, st);
        }
        if k == Kind::Newline {
            match self.next() {
                Ok(_) => Ok(()),
                Err(e) => Err(e),
            }
        } else if k == Kind::Eof {
            Ok(())
        } else {
            match self.next() {
                Ok(other) => Err(unexpected("expected newline or EOF after value", &other)),
                Err(_) => {
                    proof {
                        reveal_strlit("expected newline or EOF after value");
                    }
                    Err(error_here("expected newline or EOF after value"))
                },
            }
        }
    }

    /// One segment of a key.
    fn parse_simple_key(&mut self) -> (r: Result<String, ParseError>)
        requires
            old(self).wf(),
        ensures
            final(self).wf(),
            final(self).text() == old(self).text(),
            final(self).nodes() == old(self).nodes(),
            final(self).path() == old(self).path(),
            match simple_key(old(self).text(), old(self).state()) {
                Ok((k, st)) => r is Ok && r->Ok_0@ == k && final(self).state() == st,
                Err(x) => r is Err && error_as(r->Err_0, old(self).text(), x),
            },
            r is Ok ==> shrinks(old(self).text(), final(self).state(), old(self).state()),
    {
        let tok = match self.next() {
            Ok(t) => t,
            Err(e) => {
                return Err(e);
            },
        };
        match tok {
            Token::BareKey(k) => Ok(k),
            Token::BasicString(k) => Ok(k),
            Token::LiteralString(k) => Ok(k),
            Token::Integer(n) => {
                let mut k = String::new();
                push_decimal(&mut k, n);
                assert(k@ =~= crate::text::decimal_digits(n as int));
                Ok(k)
            },
            other => Err(unexpected("expected key", &other)),
        }
    }

    /// A key, read in key mode: its segments, separated by `.`.
    fn parse_key(&mut self) -> (r: Result<Vec<String>, ParseError>)
        requires
            old(self).wf(),
        ensures
            final(self).wf(),
            final(self).text() == old(self).text(),
            final(self).nodes() == old(self).nodes(),
            final(self).path() == old(self).path(),
            match key_spec(old(self).text(), old(self).state()) {
                Ok((segs, st)) => r is Ok && strs(r->Ok_0@) == segs && final(self).state() == st,
                Err(x) => r is Err && error_as(r->Err_0, old(self).text(), x),
            },
            r is Ok ==> r->Ok_0.len() >= 1 && shrinks(old(self).text(), final(self).state(), old(self).state()),
    {
        let ghost s = self.text();
        let ghost st0 = self.state();
        self.set_key_mode(true);
        let first = match self.parse_simple_key() {
            Ok(k) => k,
            Err(e) => {
                return Err(e);
            },
        };
        let ghost st1 = self.state();
        let ghost k1 = first@;
        let mut segments: Vec<String> = Vec::new();
        segments.push(first);
        proof {
            assert(strs(segments@) =~= seq![k1]);
        }
        loop
            invariant
                self.wf(),
                s == old(self).text(),
                st0 == old(self).state(),
                self.text() == s,
                self.nodes() == old(self).nodes(),
                self.path() == old(self).path(),
                segments.len() >= 1,
                shrinks(s, self.state(), st0),
                key_spec(s, st0) == match key_rest(s, self.state(), strs(segments@)) {
                    Err(e) => Err(e),
                    Ok((segs, st2)) => Ok((segs, with_key_mode(st2, false))),
                },
            decreases lex_measure(s, self.state()),
        {
            let ghost st = self.state();
            let k = match self.peek_kind() {
                Ok(k) => k,
                Err(e) => {
                    return Err(e);
                },
            };
            proof {
                lemma_peek_kind(s, st);
            }
            if k == Kind::Dot {
                match self.next() {
                    Ok(_) => {},
                    Err(e) => {
                        return Err(e);
                    },
                }
                let seg = match self.parse_simple_key() {
                    Ok(k) => k,
                    Err(e) => {
                        return Err(e);
                    },
                };
                let ghost segs0 = segments@;
                segments.push(seg);
                proof {
                    assert(strs(segments@) =~= strs(segs0).push(seg@));
                }
            } else {
                self.set_key_mode(false);
                return Ok(segments);
            }
        }
    }

    /// A value: a scalar token, an array, or an inline table.
    fn parse_value(&mut self) -> (r: Result<Value, ParseError>)
        requires
            old(self).wf(),
        ensures
            final(self).wf(),
            final(self).text() == old(self).text(),
            final(self).nodes() == old(self).nodes(),
            final(self).path() == old(self).path(),
            value_as(r, final(self).state(), old(self).text(), value_spec(old(self).text(), old(self).state())),
            r is Ok ==> no_growth(old(self).text(), final(self).state(), old(self).state()),
        decreases lex_measure(old(self).text(), old(self).state()), 0int,
    {
        let tok = match self.next() {
            Ok(t) => t,
            Err(e) => {
                return Err(e);
            },
        };
        match tok {
            Token::BasicString(x) => Ok(Value::String(x)),
            Token::LiteralString(x) => Ok(Value::String(x)),
            Token::MlBasicString(x) => Ok(Value::String(x)),
            Token::MlLiteralString(x) => Ok(Value::String(x)),
            Token::Integer(n) => Ok(Value::Integer(n)),
            Token::Float(f) => Ok(Value::Float(f)),
            Token::Boolean(b) => Ok(Value::Boolean(b)),
            Token::OffsetDateTimeToken(d) => Ok(Value::OffsetDateTime(d)),
            Token::LocalDateTimeToken(d) => Ok(Value::LocalDateTime(d)),
            Token::LocalDateToken(d) => Ok(Value::LocalDate(d)),
            Token::LocalTimeToken(t) => Ok(Value::LocalTime(t)),
            Token::LBracket => self.parse_array(),
            Token::DoubleLBracket => {
                // In a value, `[[` opens two arrays: the second `[` is read again.
                self.push_back(Token::LBracket);
                self.parse_array()
            },
            Token::LBrace => self.parse_inline_table(),
            other => Err(unexpected("expected value", &other)),
        }
    }

    /// The elements of an array, after its `[`, up to its `]`.
    fn parse_array(&mut self) -> (r: Result<Value, ParseError>)
        requires
            old(self).wf(),
        ensures
            final(self).wf(),
            final(self).text() == old(self).text(),
            final(self).nodes() == old(self).nodes(),
            final(self).path() == old(self).path(),
            value_as(r, final(self).state(), old(self).text(), array_spec(old(self).text(), old(self).state(), Seq::empty())),
            r is Ok ==> no_growth(old(self).text(), final(self).state(), old(self).state()),
        decreases lex_measure(old(self).text(), old(self).state()), 1int,
    {
        let ghost s = self.text();
        let ghost st0 = self.state();
        proof { self.lexer.lemma_measure(); }
        let mut elements: Vec<Value> = Vec::new();
        proof {
            assert(values_model(elements@) =~= Seq::<ValueModel>::empty());
        }
        loop
            invariant
                self.wf(),
                s == old(self).text(),
                st0 == old(self).state(),
                self.text() == s,
                self.nodes() == old(self).nodes(),
                self.path() == old(self).path(),
                no_growth(s, self.state(), st0),
                array_spec(s, st0, Seq::empty()) == array_spec(s, self.state(), values_model(elements@)),
            decreases lex_measure(s, self.state()),
        {
            match self.skip_newline_tokens() {
                Ok(()) => {},
                Err(e) => {
                    return Err(e);
                },
            }
            let ghost st1 = self.state();
            let k = match self.peek_kind() {
                Ok(k) => k,
                Err(e) => {
                    return Err(e);
                },
            };
            proof {
                lemma_peek_kind(s, st1);
            }
            if k == Kind::DoubleRBracket {
                // `]]`: the first `]` closes this array, the second is read again.
                match self.next() {
                    Ok(_) => {},
                    Err(e) => {
                        return Err(e);
                    },
                }
                self.push_back(Token::RBracket);
                return Ok(Value::Array(elements));
            }
            if k == Kind::RBracket {
                match self.next() {
                    Ok(_) => {},
                    Err(e) => {
                        return Err(e);
                    },
                }
                return Ok(Value::Array(elements));
            }
            let v = match self.parse_value() {
                Ok(v) => v,
                Err(e) => {
                    return Err(e);
                },
            };
            let ghost elems0 = elements@;
            elements.push(v);
            proof {
                assert(elements@.drop_last() =~= elems0);
            }
            match self.skip_newline_tokens() {
                Ok(()) => {},
                Err(e) => {
                    return Err(e);
                },
            }
            let ghost st4 = self.state();
            let k2 = match self.peek_kind() {
                Ok(k) => k,
                Err(e) => {
                    return Err(e);
                },
            };
            proof {
                lemma_peek_kind(s, st4);
            }
            if k2 == Kind::Comma {
                match self.next() {
                    Ok(_) => {},
                    Err(e) => {
                        return Err(e);
                    },
                }
            } else if k2 == Kind::RBracket {
                match self.next() {
                    Ok(_) => {},
                    Err(e) => {
                        return Err(e);
                    },
                }
                return Ok(Value::Array(elements));
            } else if k2 == Kind::DoubleRBracket {
                match self.next() {
                    Ok(_) => {},
                    Err(e) => {
                        return Err(e);
                    },
                }
                self.push_back(Token::RBracket);
                return Ok(Value::Array(elements));
            } else {
                proof {
                    reveal_strlit("expected ',' or ']' in array");
                }
                return Err(error_here("expected ',' or ']' in array"));
            }
        }
    }

    /// The key/value pairs of an inline table, after its `{`, up to its `}`.
    fn parse_inline_table(&mut self) -> (r: Result<Value, ParseError>)
        requires
            old(self).wf(),
        ensures
            final(self).wf(),
            final(self).text() == old(self).text(),
            final(self).nodes() == old(self).nodes(),
            final(self).path() == old(self).path(),
            value_as(r, final(self).state(), old(self).text(), inline_spec(old(self).text(), old(self).state())),
            r is Ok ==> no_growth(old(self).text(), final(self).state(), old(self).state()),
        decreases lex_measure(old(self).text(), old(self).state()), 2int,
    {
        let ghost s = self.text();
        let ghost st0 = self.state();
        proof { self.lexer.lemma_measure(); }
        self.set_key_mode(true);
        let ghost stk = self.state();
        let k = match self.peek_kind() {
            Ok(k) => k,
            Err(e) => {
                return Err(e);
            },
        };
        self.set_key_mode(false);
        proof {
            lemma_peek_kind(s, stk);
        }
        if k == Kind::RBrace {
            match self.next() {
                Ok(_) => {},
                Err(e) => {
                    return Err(e);
                },
            }
            let t = crate::table::KeyMap::new();
            proof {
                crate::table::lemma_table_model(t);
                assert(crate::table::entries_of(t@) =~= Seq::<(Seq<char>, ValueModel)>::empty());
            }
            return Ok(Value::Table(t));
        }
        let mut pairs = Arena::new();
        loop
            invariant
                self.wf(),
                s == old(self).text(),
                st0 == old(self).state(),
                self.text() == s,
                self.nodes() == old(self).nodes(),
                self.path() == old(self).path(),
                no_growth(s, self.state(), st0),
                arena_wf(pairs@),
                inline_spec(s, st0) == inline_pairs(s, self.state(), pairs@),
            decreases lex_measure(s, self.state()),
        {
            let key = match self.parse_key() {
                Ok(k) => k,
                Err(e) => {
                    return Err(e);
                },
            };
            match self.expect_equals() {
                Ok(()) => {},
                Err(e) => {
                    return Err(e);
                },
            }
            let v = match self.parse_value() {
                Ok(v) => v,
                Err(e) => {
                    return Err(e);
                },
            };
            match pairs.insert_inline(&key, v, 1, 1) {
                Ok(()) => {},
                Err(e) => {
                    return Err(e);
                },
            }
            let ghost st3 = self.state();
            let k = match self.peek_kind() {
                Ok(k) => k,
                Err(e) => {
                    return Err(e);
                },
            };
            proof {
                lemma_peek_kind(s, st3);
            }
            if k == Kind::Comma {
                match self.next() {
                    Ok(_) => {},
                    Err(e) => {
                        return Err(e);
                    },
                }
                self.set_key_mode(true);
                let ghost st5 = self.state();
                let k2 = match self.peek_kind() {
                    Ok(k) => k,
                    Err(e) => {
                        return Err(e);
                    },
                };
                self.set_key_mode(false);
                proof {
                    lemma_peek_kind(s, st5);
                }
                if k2 == Kind::RBrace {
                    proof {
                        reveal_strlit("trailing comma not allowed in inline table");
                    }
                    return Err(error_here("trailing comma not allowed in inline table"));
                }
            } else if k == Kind::RBrace {
                match self.next() {
                    Ok(_) => {},
                    Err(e) => {
                        return Err(e);
                    },
                }
                return Ok(Value::Table(pairs.into_table()));
            } else if k == Kind::Newline {
                proof {
                    reveal_strlit("newlines not allowed inside inline table");
                }
                return Err(error_here("newlines not allowed inside inline table"));
            } else {
                proof {
                    reveal_strlit("expected ',' or '}' in inline table");
                }
                return Err(error_here("expected ',' or '}' in inline table"));
            }
        }
    }

    /// A `key = value` line, added to the current table.
    fn parse_keyval(&mut self) -> (r: Result<(), ParseError>)
        requires
            old(self).wf(),
        ensures
            final(self).wf(),
            final(self).text() == old(self).text(),
            final(self).path() == old(self).path(),
            match keyval_spec(old(self).text(), old(self).state(), old(self).nodes(), old(self).path()) {
                Ok((n, st)) => r is Ok && final(self).nodes() == n && final(self).state() == st,
                Err(x) => r is Err && error_as(r->Err_0, old(self).text(), x),
            },
            r is Ok ==> shrinks(old(self).text(), final(self).state(), old(self).state()),
    {
        let key = match self.parse_key() {
            Ok(k) => k,
            Err(e) => {
                return Err(e);
            },
        };
        match self.expect_equals() {
            Ok(()) => {},
            Err(e) => {
                return Err(e);
            },
        }
        let value = match self.parse_value() {
            Ok(v) => v,
            Err(e) => {
                return Err(e);
            },
        };
        match self.require_newline_or_eof() {
            Ok(()) => {},
            Err(e) => {
                return Err(e);
            },
        }
        self.tracker.insert_keyval(key, value, 1, 1)
    }

    /// A `[table]` header, after its `[`: the table becomes the current one.
    fn parse_table_header(&mut self) -> (r: Result<(), ParseError>)
        requires
            old(self).wf(),
        ensures
            final(self).wf(),
            final(self).text() == old(self).text(),
            match table_header_spec(old(self).text(), old(self).state(), old(self).nodes()) {
                Ok((n, p, st)) => r is Ok && final(self).nodes() == n && final(self).path() == p && final(self).state() == st,
                Err(x) => r is Err && error_as(r->Err_0, old(self).text(), x),
            },
            r is Ok ==> no_growth(old(self).text(), final(self).state(), old(self).state()),
    {
        let key = match self.parse_key() {
            Ok(k) => k,
            Err(e) => {
                return Err(e);
            },
        };
        match self.expect_rbracket() {
            Ok(()) => {},
            Err(e) => {
                return Err(e);
            },
        }
        match self.require_newline_or_eof() {
            Ok(()) => {},
            Err(e) => {
                return Err(e);
            },
        }
        self.tracker.set_standard_table(key, 1, 1)
    }

    /// A `[[array]]` header, after its `[[`: a new table of the array
    /// becomes the current one.
    fn parse_aot_header(&mut self) -> (r: Result<(), ParseError>)
        requires
            old(self).wf(),
        ensures
            final(self).wf(),
            final(self).text() == old(self).text(),
            match aot_header_spec(old(self).text(), old(self).state(), old(self).nodes()) {
                Ok((n, p, st)) => r is Ok && final(self).nodes() == n && final(self).path() == p && final(self).state() == st,
                Err(x) => r is Err && error_as(r->Err_0, old(self).text(), x),
            },
            r is Ok ==> no_growth(old(self).text(), final(self).state(), old(self).state()),
    {
        let key = match self.parse_key() {
            Ok(k) => k,
            Err(e) => {
                return Err(e);
            },
        };
        match self.expect_double_rbracket() {
            Ok(()) => {},
            Err(e) => {
                return Err(e);
            },
        }
        match self.require_newline_or_eof() {
            Ok(()) => {},
            Err(e) => {
                return Err(e);
            },
        }
        self.tracker.append_aot(key, 1, 1)
    }

    /// The lines of the document, up to the end of input.
    fn parse_document(&mut self) -> (r: Result<(), ParseError>)
        requires
            old(self).wf(),
        ensures
            final(self).wf(),
            match document_spec(old(self).text(), old(self).state(), old(self).nodes(), old(self).path()) {
                Ok(n) => r is Ok && final(self).nodes() == n,
                Err(x) => r is Err && error_as(r->Err_0, old(self).text(), x),
            },
    {
        let ghost s = self.text();
        let ghost x0 = document_spec(s, self.state(), self.nodes(), self.path());
        proof { self.lexer.lemma_measure(); }
        loop
            invariant
                self.wf(),
                s == old(self).text(),
                x0 == document_spec(s, old(self).state(), old(self).nodes(), old(self).path()),
                self.text() == s,
                0 <= lex_measure(s, self.state()),
                document_spec(s, self.state(), self.nodes(), self.path()) == x0,
            decreases lex_measure(s, self.state()),
        {
            let ghost st = self.state();
            // Key mode is on before anything is looked at, so that a key of
            // digits and dots such as `3.14159` is read as a key.
            self.set_key_mode(true);
            match self.skip_newline_tokens() {
                Ok(()) => {},
                Err(e) => {
                    return Err(e);
                },
            }
            let ghost st1 = self.state();
            let k = match self.peek_kind() {
                Ok(k) => k,
                Err(e) => {
                    return Err(e);
                },
            };
            proof {
                lemma_peek_kind(s, st1);
            }
            if k == Kind::Eof {
                self.set_key_mode(false);
                return Ok(());
            } else if k == Kind::LBracket {
                self.set_key_mode(false);
                match self.next() {
                    Ok(_) => {},
                    Err(e) => {
                        return Err(e);
                    },
                }
                match self.parse_table_header() {
                    Ok(()) => {},
                    Err(e) => {
                        return Err(e);
                    },
                }
            } else if k == Kind::DoubleLBracket {
                self.set_key_mode(false);
                match self.next() {
                    Ok(_) => {},
                    Err(e) => {
                        return Err(e);
                    },
                }
                match self.parse_aot_header() {
                    Ok(()) => {},
                    Err(e) => {
                        return Err(e);
                    },
                }
            } else {
                match self.parse_keyval() {
                    Ok(()) => {},
                    Err(e) => {
                        return Err(e);
                    },
                }
            }
        }
    }

    /// Reads the whole document: its root table.
    pub fn parse(self) -> (r: Result<Value, ParseError>)
        requires
            self.wf(),
        ensures
            match document_spec(self.text(), self.state(), self.nodes(), self.path()) {
                Ok(n) => r is Ok && value_model(r->Ok_0) == ValueModel::Table(tree_model(n, 0)),
                Err(x) => r is Err && error_as(r->Err_0, self.text(), x),
            },
    {
        let mut p = self;
        match p.parse_document() {
            Ok(()) => Ok(p.tracker.into_value()),
            Err(e) => Err(e),
        }
    }
}

} // verus!
