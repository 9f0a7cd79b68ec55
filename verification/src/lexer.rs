//! Turns TOML text into tokens. Each reading function is held to the lexical
//! grammar in `grammar`.

use vstd::prelude::*;
use crate::error::ParseError;
use crate::grammar::{
    bare_end, bare_key_at, comment_scan, keyword_at, lex_at, skip_trivia, Trivia,
    after_date, datetime_at, date_like, digit_count, digit_start_at, digits_scan, offset_scan,
    pow10, time_like, time_scan, OffsetScan, TimeScan,
    based_at, based_scan, decimal_at, dec_scan, digit_run_us, float_at, float_end, exponent_end,
    number_at, signed_at, strip_underscores, is_base_digit,
    basic_body, escape_at, literal_body, ml_basic_body, ml_content_start, ml_literal_body, prepend,
    quote_run, repeat, skip_ws_nl, unicode_scan, is_ws_nl, lemma_prepend_prepend, lemma_quote_run,
    Body, Esc, Lexed, Num, TokenModel, bare_key_char, is_control, is_digit, is_hex_digit,
    is_ml_control, is_scalar, is_word_char, hex_value, line_at, col_at, lemma_line_col_bounds,
};
use crate::value::{LocalDate, LocalDateTime, LocalTime, OffsetDateTime, UtcOffset};
use crate::grammar::{control_msg, expect_msg};
use crate::text::{nat_digits, push_char, push_hex_min};

verus! {

/// A token of TOML text.
#[derive(Debug, PartialEq)]
pub enum Token {
    Equals,
    Dot,
    Comma,
    Newline,
    Eof,
    LBracket,
    RBracket,
    DoubleLBracket,
    DoubleRBracket,
    LBrace,
    RBrace,
    BareKey(String),
    BasicString(String),
    LiteralString(String),
    MlBasicString(String),
    MlLiteralString(String),
    Integer(i64),
    /// A float, as its text (see `Value::Float`).
    Float(String),
    Boolean(bool),
    OffsetDateTimeToken(OffsetDateTime),
    LocalDateTimeToken(LocalDateTime),
    LocalDateToken(LocalDate),
    LocalTimeToken(LocalTime),
}

impl Token {
    /// The token with its text as character sequences.
    pub open spec fn model(&self) -> TokenModel {
        match self {
            Token::Equals => TokenModel::Equals,
            Token::Dot => TokenModel::Dot,
            Token::Comma => TokenModel::Comma,
            Token::Newline => TokenModel::Newline,
            Token::Eof => TokenModel::Eof,
            Token::LBracket => TokenModel::LBracket,
            Token::RBracket => TokenModel::RBracket,
            Token::DoubleLBracket => TokenModel::DoubleLBracket,
            Token::DoubleRBracket => TokenModel::DoubleRBracket,
            Token::LBrace => TokenModel::LBrace,
            Token::RBrace => TokenModel::RBrace,
            Token::BareKey(s) => TokenModel::BareKey(s@),
            Token::BasicString(s) => TokenModel::BasicString(s@),
            Token::LiteralString(s) => TokenModel::LiteralString(s@),
            Token::MlBasicString(s) => TokenModel::MlBasicString(s@),
            Token::MlLiteralString(s) => TokenModel::MlLiteralString(s@),
            Token::Integer(n) => TokenModel::Integer(*n),
            Token::Float(s) => TokenModel::Float(s@),
            Token::Boolean(b) => TokenModel::Boolean(*b),
            Token::OffsetDateTimeToken(d) => TokenModel::OffsetDateTime(*d),
            Token::LocalDateTimeToken(d) => TokenModel::LocalDateTime(*d),
            Token::LocalDateToken(d) => TokenModel::LocalDate(*d),
            Token::LocalTimeToken(t) => TokenModel::LocalTime(*t),
        }
    }
}

/// The weight of a held-back token in `Lexer::measure`.
pub open spec fn weight(t: TokenModel) -> nat {
    match t {
        TokenModel::Eof => 0,
        TokenModel::DoubleLBracket => 2,
        TokenModel::DoubleRBracket => 2,
        _ => 1,
    }
}

/// `e` is reported at position `q` of `s` with the message `m`, which is
/// not empty.
pub open spec fn reported_at(e: ParseError, s: Seq<char>, q: int, m: Seq<char>) -> bool {
    e.line == line_at(s, q) && e.col == col_at(s, q) && e.message@ == m && m.len() > 0
}

/// `r` is what `x` says of a token read from `s`, and `end` is where reading
/// stopped when it succeeded.
pub open spec fn lexed_as(r: Result<Token, ParseError>, end: int, s: Seq<char>, x: Lexed) -> bool {
    match x {
        Lexed::Tok(t, e) => r is Ok && r->Ok_0.model() == t && end == e,
        Lexed::Fail(q, m) => r is Err && reported_at(r->Err_0, s, q, m),
    }
}

/// `r` is what `b` says of a string body read from `s` whose opening
/// delimiter is at `p`; an unterminated string has the message `um`.
pub open spec fn body_as(r: Result<String, ParseError>, end: int, s: Seq<char>, p: int, b: Body, um: Seq<char>) -> bool {
    match b {
        Body::Done(t, e) => r is Ok && r->Ok_0@ == t && end == e,
        Body::Fail(q, m) => r is Err && reported_at(r->Err_0, s, q, m),
        Body::Unterminated => r is Err && reported_at(r->Err_0, s, p, um),
    }
}

/// `r` is what `x` says of an escape read from `s`.
pub open spec fn esc_as(r: Result<char, ParseError>, end: int, s: Seq<char>, x: Esc) -> bool {
    match x {
        Esc::Char(c, j) => r == Ok::<char, ParseError>(c) && end == j,
        Esc::Fail(q, m) => r is Err && reported_at(r->Err_0, s, q, m),
    }
}

/// Where a reader stands: the position of the next character, the token
/// held back, if any, and whether digits followed by `.` are read as keys.
pub ghost struct LexState {
    pub pos: int,
    pub peeked: Option<TokenModel>,
    pub key_mode: bool,
}

/// What reading a token gives: the token and where the reader then stands,
/// or an error reported at a position of the text, with its message.
pub ghost enum Step {
    Tok(TokenModel, LexState),
    Fail(int, Seq<char>),
}

/// Taking the next token of `s` from `st`: the held-back one if there is
/// one, else the one read from the text.
pub open spec fn next_step(s: Seq<char>, st: LexState) -> Step {
    match st.peeked {
        Some(t) => Step::Tok(t, LexState { peeked: None, ..st }),
        None => match lex_at(s, st.pos, st.key_mode) {
            Lexed::Tok(t, e) => Step::Tok(t, LexState { pos: e, peeked: None, ..st }),
            Lexed::Fail(q, m) => Step::Fail(q, m),
        },
    }
}

/// Looking at the next token of `s` from `st`, keeping it held back.
pub open spec fn peek_step(s: Seq<char>, st: LexState) -> Step {
    match st.peeked {
        Some(t) => Step::Tok(t, st),
        None => match lex_at(s, st.pos, st.key_mode) {
            Lexed::Tok(t, e) => Step::Tok(t, LexState { pos: e, peeked: Some(t), ..st }),
            Lexed::Fail(q, m) => Step::Fail(q, m),
        },
    }
}

/// How much reading is left from `st`: four for each character after the
/// position, and the weight of the held-back token.
pub open spec fn lex_measure(s: Seq<char>, st: LexState) -> int {
    4 * (s.len() - st.pos) + match st.peeked {
        Some(t) => weight(t) as int,
        None => 0int,
    }
}

/// `r` and the reader's new state `st` are what `x` says.
pub open spec fn stepped_as(r: Result<Token, ParseError>, st: LexState, s: Seq<char>, x: Step) -> bool {
    match x {
        Step::Tok(t, st2) => r is Ok && r->Ok_0.model() == t && st == st2,
        Step::Fail(q, m) => r is Err && reported_at(r->Err_0, s, q, m),
    }
}

/// `char::from_u32`: the character of a Unicode scalar value, or `None`.
#[verifier::external_body]
fn char_from_u32(v: u32) -> (r: Option<char>)
    ensures
        is_scalar(v as nat) ==> r == Some(v as char),
        !is_scalar(v as nat) ==> r is None,
{
    char::from_u32(v)
}

/// The characters of `s`, in order.
pub(crate) fn chars_of(s: &str) -> (v: Vec<char>)
    ensures
        v@ == s@,
{
    let mut v: Vec<char> = Vec::new();
    for c in it: s.chars()
        invariant
            v@ == it.seq().take(it.index() as int),
            it.seq() == s@,
    {
        v.push(c);
        assert(v@ =~= it.seq().take(it.index() as int + 1));
    }
    assert(v@ =~= s@);
    v
}

/// Reads tokens from TOML text, one at a time.
pub struct Lexer {
    input: Vec<char>,
    pos: usize,
    line: u32,
    col: u32,
    peek_buf: Option<Token>,
    /// When true, digits followed by `.` are not read as a float, so that
    /// digit-only dotted keys such as `3.14159` read as key segments.
    pub key_mode: bool,
}

impl Lexer {
    /// The text being read.
    pub closed spec fn text(&self) -> Seq<char> {
        self.input@
    }

    /// Whether digits followed by `.` are read as key segments.
    pub closed spec fn in_key_mode(&self) -> bool {
        self.key_mode
    }

    /// The position of the next character to read.
    pub closed spec fn position(&self) -> int {
        self.pos as int
    }

    /// The token held back by `peek_token` or `push_back`, if any.
    pub closed spec fn peeked(&self) -> Option<TokenModel> {
        match self.peek_buf {
            Some(t) => Some(t.model()),
            None => None,
        }
    }

    /// How much reading is left: four for each character after the position,
    /// and the weight of the held-back token. Reading a token never makes it
    /// grow, and reading a token other than the end of input makes it shrink.
    pub closed spec fn measure(&self) -> nat {
        (4 * (self.input.len() - self.pos) + match self.peek_buf {
            Some(t) => weight(t.model()),
            None => 0,
        }) as nat
    }

    /// Where the reader stands.
    pub open spec fn state(&self) -> LexState {
        LexState { pos: self.position(), peeked: self.peeked(), key_mode: self.in_key_mode() }
    }

    /// The measure of a reader is that of where it stands.
    pub proof fn lemma_measure(&self)
        requires
            self.wf(),
        ensures
            self.measure() == lex_measure(self.text(), self.state()),
            0 <= self.position() <= self.text().len(),
    {
    }

    /// The position is within the text and the line and column are those of
    /// the position.
    pub closed spec fn wf(&self) -> bool {
        &&& self.pos <= self.input.len()
        &&& self.input.len() < u32::MAX
        &&& self.line == line_at(self.input@, self.pos as int)
        &&& self.col == col_at(self.input@, self.pos as int)
    }

    /// A reader at the start of `input`.
    pub fn new(input: &str) -> (l: Lexer)
        requires
            input@.len() < u32::MAX,
        ensures
            l.wf(),
            l.text() == input@,
            l.position() == 0,
            l.peeked() is None,
            !l.in_key_mode(),
    {
        Lexer { input: chars_of(input), pos: 0, line: 1, col: 1, peek_buf: None, key_mode: false }
    }

    fn err(&self, message: &str) -> (e: ParseError)
        requires
            self.wf(),
            message@.len() > 0,
        ensures
            reported_at(e, self.input@, self.pos as int, message@),
    {
        ParseError::new(message.to_string(), self.line, self.col)
    }

    fn err_with(&self, message: String) -> (e: ParseError)
        requires
            self.wf(),
            message@.len() > 0,
        ensures
            reported_at(e, self.input@, self.pos as int, message@),
    {
        ParseError::new(message, self.line, self.col)
    }

    fn current_char(&self) -> (c: Option<char>)
        requires
            self.wf(),
        ensures
            self.pos < self.input.len() ==> c == Some(self.input@[self.pos as int]),
            self.pos >= self.input.len() ==> c is None,
    {
        if self.pos < self.input.len() {
            Some(self.input[self.pos])
        } else {
            None
        }
    }

    fn char_at(&self, k: usize) -> (c: Option<char>)
        requires
            self.wf(),
        ensures
            self.pos + k < self.input.len() ==> c == Some(self.input@[self.pos + k]),
            self.pos + k >= self.input.len() ==> c is None,
    {
        if k < self.input.len() - self.pos {
            Some(self.input[self.pos + k])
        } else {
            None
        }
    }

    fn is_at(&self, c: char) -> (b: bool)
        requires
            self.wf(),
        ensures
            b == (self.pos < self.input.len() && self.input@[self.pos as int] == c),
    {
        self.pos < self.input.len() && self.input[self.pos] == c
    }

    fn advance(&mut self)
        requires
            old(self).wf(),
            old(self).pos < old(self).input.len(),
        ensures
            final(self).wf(),
            final(self).pos == old(self).pos + 1,
            final(self).input == old(self).input,
            final(self).peek_buf == old(self).peek_buf,
            final(self).key_mode == old(self).key_mode,
            final(self).pos >= old(self).pos,
    {
        proof {
            lemma_line_col_bounds(self.input@, self.pos as int + 1);
        }
        let ch = self.input[self.pos];
        self.pos = self.pos + 1;
        if ch == '\n' {
            self.line = self.line + 1;
            self.col = 1;
        } else {
            self.col = self.col + 1;
        }
    }

    fn advance_by(&mut self, n: usize)
        requires
            old(self).wf(),
            old(self).pos + n <= old(self).input.len(),
        ensures
            final(self).wf(),
            final(self).pos == old(self).pos + n,
            final(self).input == old(self).input,
            final(self).peek_buf == old(self).peek_buf,
            final(self).key_mode == old(self).key_mode,
            final(self).pos >= old(self).pos,
    {
        let mut k: usize = 0;
        while k < n
            invariant
                self.wf(),
                k <= n,
                self.pos == old(self).pos + k,
                old(self).pos + n <= old(self).input.len(),
                self.input == old(self).input,
                self.peek_buf == old(self).peek_buf,
                self.key_mode == old(self).key_mode,
                self.pos >= old(self).pos,
            decreases n - k,
        {
            self.advance();
            k = k + 1;
        }
    }
}

/// The value of a hexadecimal digit.
fn hex_val(c: char) -> (v: u32)
    requires
        is_hex_digit(c),
    ensures
        v == hex_value(c),
        v < 16,
{
    let u = c as u32;
    if u >= 48 && u <= 57 {
        u - 48
    } else if u >= 97 && u <= 102 {
        u - 87
    } else {
        u - 55
    }
}

fn is_hex_char(c: char) -> (b: bool)
    ensures
        b == is_hex_digit(c),
{
    let u = c as u32;
    (u >= 48 && u <= 57) || (u >= 97 && u <= 102) || (u >= 65 && u <= 70)
}

fn is_control_char(c: char) -> (b: bool)
    ensures
        b == is_control(c),
{
    let u = c as u32;
    u <= 8 || (u >= 10 && u <= 31) || u == 127
}

fn is_ws_nl_char(c: char) -> (b: bool)
    ensures
        b == is_ws_nl(c),
{
    c == ' ' || c == '\t' || c == '\n' || c == '\r'
}

fn is_digit_char(c: char) -> (b: bool)
    ensures
        b == is_digit(c),
{
    let u = c as u32;
    u >= 48 && u <= 57
}

fn is_base_digit_char(c: char, base: u32) -> (b: bool)
    requires
        base == 16 || base == 8 || base == 2,
    ensures
        b == is_base_digit(c, base as nat),
        b ==> is_hex_digit(c),
{
    let u = c as u32;
    if base == 16 {
        is_hex_char(c)
    } else if base == 8 {
        u >= 48 && u <= 55
    } else {
        u >= 48 && u <= 49
    }
}

proof fn lemma_pow10_bound(k: nat)
    requires
        k <= 9,
    ensures
        1 <= pow10(k) <= 1_000_000_000,
    decreases 9 - k,
{
    reveal_with_fuel(pow10, 10);
    if k < 9 {
        lemma_pow10_bound(k + 1);
    }
}

proof fn lemma_pow10_step(v: nat, a: nat)
    ensures
        v * pow10(a) * 10 == v * pow10(a + 1),
{
    assert(pow10(a + 1) == 10 * pow10(a));
    assert(v * pow10(a) * 10 == v * (10 * pow10(a))) by (nonlinear_arith);
}

proof fn lemma_digits_scan_bound(s: Seq<char>, i: int, n: nat, acc: nat)
    ensures
        digits_scan(s, i, n, acc) matches Num::Done(v, e) ==> v < (acc + 1) * pow10(n) && e == i + n,
    decreases n,
{
    reveal_with_fuel(pow10, 2);
    if n == 0 {
        assert((acc + 1) * pow10(0) == acc + 1) by (nonlinear_arith)
            requires pow10(0) == 1;
    }
    if n > 0 && 0 <= i < s.len() && is_digit(s[i]) {
        let d = hex_value(s[i]);
        assert(d <= 9);
        lemma_digits_scan_bound(s, i + 1, (n - 1) as nat, acc * 10 + d);
        assert(pow10(n) == 10 * pow10((n - 1) as nat));
        assert((acc * 10 + d + 1) * pow10((n - 1) as nat) <= (acc + 1) * pow10(n)) by (nonlinear_arith)
            requires
                d <= 9,
                pow10(n) == 10 * pow10((n - 1) as nat),
                pow10((n - 1) as nat) >= 0;
    }
}

proof fn lemma_pow10_mul(a: nat, b: nat)
    ensures
        pow10(a) * pow10(b) == pow10(a + b),
    decreases b,
{
    reveal_with_fuel(pow10, 2);
    if b == 0 {
        assert(pow10(a) * pow10(0) == pow10(a)) by (nonlinear_arith)
            requires pow10(0) == 1;
    }
    if b > 0 {
        lemma_pow10_mul(a, (b - 1) as nat);
        assert(a + (b - 1) as nat == (a + b - 1) as nat);
        assert(pow10(a + b) == 10 * pow10((a + b - 1) as nat));
        assert(pow10(b) == 10 * pow10((b - 1) as nat));
        assert(pow10(a) * (10 * pow10((b - 1) as nat)) == 10 * (pow10(a) * pow10((b - 1) as nat))) by (nonlinear_arith);
    }
}

proof fn lemma_digit_count_digits(s: Seq<char>, i: int, n: nat)
    requires
        n <= digit_count(s, i),
        0 <= i <= s.len(),
    ensures
        i + n <= s.len(),
        forall|t: int| i <= t < i + n ==> is_digit(#[trigger] s[t]),
    decreases n,
{
    if n > 0 {
        lemma_digit_count_digits(s, i + 1, (n - 1) as nat);
    }
}

/// Whether `c` may appear in a bare key: an ASCII letter or digit, `_` or `-`.
pub fn is_bare_key_char(c: char) -> (b: bool)
    ensures
        b == bare_key_char(c),
{
    let u = c as u32;
    (u >= 65 && u <= 90) || (u >= 97 && u <= 122) || (u >= 48 && u <= 57) || u == 95 || u == 45
}

fn is_word(c: char) -> (b: bool)
    ensures
        b == is_word_char(c),
{
    let u = c as u32;
    (u >= 65 && u <= 90) || (u >= 97 && u <= 122) || (u >= 48 && u <= 57) || u == 95
}

fn is_ml_control_char(c: char) -> (b: bool)
    ensures
        b == is_ml_control(c),
{
    let u = c as u32;
    u <= 8 || (u >= 11 && u <= 12) || (u >= 14 && u <= 31) || u == 127
}

/// Sixteen to the power `k`.
pub open spec fn pow16(k: nat) -> nat
    decreases k,
{
    if k == 0 {
        1
    } else {
        16 * pow16((k - 1) as nat)
    }
}

proof fn lemma_pow16_bound(k: nat)
    requires
        k <= 8,
    ensures
        pow16(k) <= 0x1_0000_0000,
    decreases 8 - k,
{
    reveal_with_fuel(pow16, 9);
    if k < 8 {
        lemma_pow16_bound(k + 1);
    }
}

/// `a`, then `c`, then `b`.
fn around_char(a: &str, c: char, b: &str) -> (m: String)
    ensures
        m@ == a@ + seq![c] + b@,
{
    let mut m = String::from_str(a);
    push_char(&mut m, c);
    m.append(b);
    assert(m@ =~= a@ + seq![c] + b@);
    m
}

/// `a` followed by the decimal digits of `n`; `a` is not empty.
fn number_message(a: &str, n: u32) -> (m: String)
    requires
        a@.len() > 0,
    ensures
        m@ == a@ + nat_digits(n as nat),
        m@.len() > 0,
{
    let mut m = String::from_str(a);
    crate::text::push_nat(&mut m, n as u64);
    m
}

/// `control character U+XXXX in <place>`.
fn control_message(c: char, place: &str) -> (m: String)
    ensures
        m@ == control_msg(c, place@),
        m@.len() > 0,
{
    let mut m = String::from_str("control character U+");
    push_hex_min(&mut m, c as u32, 4);
    m.append(" in ");
    m.append(place);
    proof {
        reveal_strlit("control character U+");
    }
    assert(m@ =~= control_msg(c, place@));
    m
}

impl Lexer {
    fn unicode_escape(&mut self, digits: u32) -> (r: Result<char, ParseError>)
        requires
            old(self).wf(),
            digits == 4 || digits == 8,
        ensures
            final(self).wf(),
            final(self).input == old(self).input,
            final(self).peek_buf == old(self).peek_buf,
            final(self).key_mode == old(self).key_mode,
            final(self).pos >= old(self).pos,
            esc_as(r, final(self).pos as int, old(self).input@, unicode_scan(old(self).input@, old(self).pos as int, digits as nat, 0)),
    {
        let ghost s = self.input@;
        let ghost start = self.pos as int;
        let mut value: u32 = 0;
        let mut k: u32 = 0;
        while k < digits
            invariant
                self.wf(),
                self.input == old(self).input,
                s == old(self).input@,
                self.peek_buf == old(self).peek_buf,
                self.key_mode == old(self).key_mode,
                self.pos >= old(self).pos,
                k <= digits <= 8,
                start == old(self).pos,
                self.pos == start + k,
                value < pow16(k as nat),
                unicode_scan(s, start, digits as nat, 0) == unicode_scan(s, self.pos as int, (digits - k) as nat, value as nat),
            decreases digits - k,
        {
            proof {
                lemma_pow16_bound((k + 1) as nat);
            }
            match self.current_char() {
                Some(c) => {
                    if is_hex_char(c) {
                        let d = hex_val(c);
                        value = value * 16 + d;
                        self.advance();
                        k = k + 1;
                    } else {
                        let m = around_char("invalid hex digit '", c, "' in unicode escape");
                        proof {
                            reveal_strlit("invalid hex digit '");
                        }
                        return Err(self.err_with(m));
                    }
                },
                None => {
                    proof {
                        reveal_strlit("unexpected EOF in unicode escape");
                    }
                    return Err(self.err("unexpected EOF in unicode escape"));
                },
            }
        }
        match char_from_u32(value) {
            Some(c) => Ok(c),
            None => {
                let mut m = String::from_str("U+");
                push_hex_min(&mut m, value, 4);
                m.append(" is not a valid Unicode scalar value");
                proof {
                    reveal_strlit("U+");
                }
                Err(self.err_with(m))
            },
        }
    }

    /// Reads the escape whose letter is at the current position (the
    /// backslash has been read).
    fn process_escape(&mut self) -> (r: Result<char, ParseError>)
        requires
            old(self).wf(),
        ensures
            final(self).wf(),
            final(self).input == old(self).input,
            final(self).peek_buf == old(self).peek_buf,
            final(self).key_mode == old(self).key_mode,
            final(self).pos >= old(self).pos,
            esc_as(r, final(self).pos as int, old(self).input@, escape_at(old(self).input@, old(self).pos as int)),
    {
        match self.current_char() {
            Some(c) => {
                if c == 'b' {
                    self.advance();
                    Ok('\x08')
                } else if c == 't' {
                    self.advance();
                    Ok('\t')
                } else if c == 'n' {
                    self.advance();
                    Ok('\n')
                } else if c == 'f' {
                    self.advance();
                    Ok('\x0C')
                } else if c == 'r' {
                    self.advance();
                    Ok('\r')
                } else if c == '"' {
                    self.advance();
                    Ok('"')
                } else if c == '\\' {
                    self.advance();
                    Ok('\\')
                } else if c == 'u' {
                    self.advance();
                    self.unicode_escape(4)
                } else if c == 'U' {
                    self.advance();
                    self.unicode_escape(8)
                } else {
                    let m = around_char("invalid escape sequence '\\", c, "'");
                    proof {
                        reveal_strlit("invalid escape sequence '\\");
                    }
                    Err(self.err_with(m))
                }
            },
            None => {
                proof {
                    reveal_strlit("unexpected EOF in escape sequence");
                }
                Err(self.err("unexpected EOF in escape sequence"))
            },
        }
    }

    /// Reads a basic string whose opening quote is at the current position.
    fn lex_basic_string(&mut self) -> (r: Result<String, ParseError>)
        requires
            old(self).wf(),
            old(self).pos < old(self).input.len(),
        ensures
            final(self).wf(),
            final(self).input == old(self).input,
            final(self).peek_buf == old(self).peek_buf,
            final(self).key_mode == old(self).key_mode,
            final(self).pos >= old(self).pos,
            r is Ok ==> final(self).pos > old(self).pos,
            body_as(r, final(self).pos as int, old(self).input@, old(self).pos as int,
                basic_body(old(self).input@, old(self).pos + 1), "unterminated basic string"@),
    {
        let ghost s = self.input@;
        let ghost p = self.pos as int;
        let line = self.line;
        let col = self.col;
        self.advance();
        let mut out = String::new();
        loop
            invariant
                self.wf(),
                self.input == old(self).input,
                s == old(self).input@,
                self.peek_buf == old(self).peek_buf,
                self.key_mode == old(self).key_mode,
                self.pos >= old(self).pos,
                self.pos > p,
                p == old(self).pos,
                line == line_at(s, p),
                col == col_at(s, p),
                basic_body(s, p + 1) == prepend(out@, basic_body(s, self.pos as int)),
            decreases s.len() - self.pos,
        {
            let ghost i = self.pos as int;
            match self.current_char() {
                None => {
                    proof {
                        reveal_strlit("unterminated basic string");
                    }
                    return Err(ParseError::new("unterminated basic string".to_string(), line, col));
                },
                Some(c) => {
                    if c == '\n' || c == '\r' {
                        proof {
                            reveal_strlit("unterminated basic string");
                        }
                        return Err(ParseError::new("unterminated basic string".to_string(), line, col));
                    } else if c == '"' {
                        self.advance();
                        assert(out@ + Seq::<char>::empty() =~= out@);
                        return Ok(out);
                    } else if c == '\\' {
                        self.advance();
                        let e = self.process_escape();
                        match e {
                            Ok(ch) => {
                                proof {
                                    crate::grammar::lemma_escape_end(s, i + 1);
                                    lemma_prepend_prepend(out@, seq![ch], basic_body(s, self.pos as int));
                                    assert(out@ + seq![ch] =~= out@.push(ch));
                                }
                                crate::text::push_char(&mut out, ch);
                            },
                            Err(err) => {
                                return Err(err);
                            },
                        }
                    } else if is_control_char(c) {
                        return Err(self.err_with(control_message(c, "basic string")));
                    } else {
                        proof {
                            lemma_prepend_prepend(out@, seq![c], basic_body(s, i + 1));
                            assert(out@ + seq![c] =~= out@.push(c));
                        }
                        crate::text::push_char(&mut out, c);
                        self.advance();
                    }
                },
            }
        }
    }

    /// Reads a literal string whose opening quote is at the current position.
    fn lex_literal_string(&mut self) -> (r: Result<String, ParseError>)
        requires
            old(self).wf(),
            old(self).pos < old(self).input.len(),
        ensures
            final(self).wf(),
            final(self).input == old(self).input,
            final(self).peek_buf == old(self).peek_buf,
            final(self).key_mode == old(self).key_mode,
            final(self).pos >= old(self).pos,
            r is Ok ==> final(self).pos > old(self).pos,
            body_as(r, final(self).pos as int, old(self).input@, old(self).pos as int,
                literal_body(old(self).input@, old(self).pos + 1), "unterminated literal string"@),
    {
        let ghost s = self.input@;
        let ghost p = self.pos as int;
        let line = self.line;
        let col = self.col;
        self.advance();
        let mut out = String::new();
        loop
            invariant
                self.wf(),
                self.input == old(self).input,
                s == old(self).input@,
                self.peek_buf == old(self).peek_buf,
                self.key_mode == old(self).key_mode,
                self.pos >= old(self).pos,
                self.pos > p,
                p == old(self).pos,
                line == line_at(s, p),
                col == col_at(s, p),
                literal_body(s, p + 1) == prepend(out@, literal_body(s, self.pos as int)),
            decreases s.len() - self.pos,
        {
            let ghost i = self.pos as int;
            match self.current_char() {
                None => {
                    proof {
                        reveal_strlit("unterminated literal string");
                    }
                    return Err(ParseError::new("unterminated literal string".to_string(), line, col));
                },
                Some(c) => {
                    if c == '\n' || c == '\r' {
                        proof {
                            reveal_strlit("unterminated literal string");
                        }
                        return Err(ParseError::new("unterminated literal string".to_string(), line, col));
                    } else if c == '\'' {
                        self.advance();
                        assert(out@ + Seq::<char>::empty() =~= out@);
                        return Ok(out);
                    } else if is_control_char(c) {
                        return Err(self.err_with(control_message(c, "literal string")));
                    } else {
                        proof {
                            lemma_prepend_prepend(out@, seq![c], literal_body(s, i + 1));
                            assert(out@ + seq![c] =~= out@.push(c));
                        }
                        crate::text::push_char(&mut out, c);
                        self.advance();
                    }
                },
            }
        }
    }

    /// Reads a multi-line basic string whose opening delimiter is at the
    /// current position.
    fn lex_ml_basic_string(&mut self) -> (r: Result<String, ParseError>)
        requires
            old(self).wf(),
            old(self).pos + 3 <= old(self).input.len(),
        ensures
            final(self).wf(),
            final(self).input == old(self).input,
            final(self).peek_buf == old(self).peek_buf,
            final(self).key_mode == old(self).key_mode,
            final(self).pos >= old(self).pos,
            r is Ok ==> final(self).pos > old(self).pos,
            body_as(r, final(self).pos as int, old(self).input@, old(self).pos as int,
                ml_basic_body(old(self).input@, ml_content_start(old(self).input@, old(self).pos as int)),
                "unterminated multi-line basic string"@),
    {
        let ghost s = self.input@;
        let ghost p = self.pos as int;
        let line = self.line;
        let col = self.col;
        self.advance_by(3);
        if self.is_at('\n') {
            self.advance();
        } else if self.is_at('\r') && self.char_at(1) == Some('\n') {
            self.advance_by(2);
        }
        let mut out = String::new();
        loop
            invariant
                self.wf(),
                self.input == old(self).input,
                s == old(self).input@,
                self.peek_buf == old(self).peek_buf,
                self.key_mode == old(self).key_mode,
                self.pos >= old(self).pos,
                p == old(self).pos,
                line == line_at(s, p),
                col == col_at(s, p),
                ml_basic_body(s, ml_content_start(s, p)) == prepend(out@, ml_basic_body(s, self.pos as int)),
            decreases s.len() - self.pos,
        {
            let ghost i = self.pos as int;
            match self.current_char() {
                None => {
                    proof {
                        reveal_strlit("unterminated multi-line basic string");
                    }
                    return Err(ParseError::new("unterminated multi-line basic string".to_string(), line, col));
                },
                Some(c) => {
                    if c == '"' {
                        let ghost q0 = self.pos as int;
                        let mut count: usize = 0;
                        proof {
                            lemma_quote_run(s, q0, '"', 5);
                        }
                        while self.is_at('"') && count < 5
                            invariant
                                self.wf(),
                                self.input == old(self).input,
                                s == old(self).input@,
                                self.peek_buf == old(self).peek_buf,
                                self.key_mode == old(self).key_mode,
                                self.pos >= old(self).pos,
                                count <= 5,
                                self.pos == q0 + count,
                                quote_run(s, q0, '"', 5) == count + quote_run(s, self.pos as int, '"', (5 - count) as nat),
                            decreases 5 - count,
                        {
                            self.advance();
                            count = count + 1;
                        }
                        let ghost k = count as nat;
                        assert(quote_run(s, q0, '"', 5) == k);
                        let ghost out0 = out@;
                        if count >= 3 {
                            let mut j: usize = 0;
                            while j < count - 3
                                invariant
                                    j <= count - 3,
                                    out@ == out0 + repeat('"', j as nat),
                                decreases count - 3 - j,
                            {
                                crate::text::push_char(&mut out, '"');
                                j = j + 1;
                                assert(out@ =~= out0 + repeat('"', j as nat));
                            }
                            return Ok(out);
                        } else {
                            let mut j: usize = 0;
                            while j < count
                                invariant
                                    j <= count,
                                    out@ == out0 + repeat('"', j as nat),
                                decreases count - j,
                            {
                                crate::text::push_char(&mut out, '"');
                                j = j + 1;
                                assert(out@ =~= out0 + repeat('"', j as nat));
                            }
                            proof {
                                lemma_prepend_prepend(out0, repeat('"', k), ml_basic_body(s, self.pos as int));
                            }
                        }
                    } else if c == '\\' {
                        self.advance();
                        let ghost j0 = self.pos as int;
                        if self.pos < self.input.len() && is_ws_nl_char(self.input[self.pos]) {
                            while self.pos < self.input.len() && is_ws_nl_char(self.input[self.pos])
                                invariant
                                    self.wf(),
                                    self.input == old(self).input,
                                    s == old(self).input@,
                                    self.peek_buf == old(self).peek_buf,
                                    self.key_mode == old(self).key_mode,
                                    self.pos >= old(self).pos,
                                    self.pos >= j0,
                                    skip_ws_nl(s, j0) == skip_ws_nl(s, self.pos as int),
                                decreases s.len() - self.pos,
                            {
                                self.advance();
                            }
                        } else {
                            let e = self.process_escape();
                            match e {
                                Ok(ch) => {
                                    proof {
                                        crate::grammar::lemma_escape_end(s, i + 1);
                                        lemma_prepend_prepend(out@, seq![ch], ml_basic_body(s, self.pos as int));
                                        assert(out@ + seq![ch] =~= out@.push(ch));
                                    }
                                    crate::text::push_char(&mut out, ch);
                                },
                                Err(err) => {
                                    return Err(err);
                                },
                            }
                        }
                    } else if is_ml_control_char(c) {
                        return Err(self.err_with(control_message(c, "multi-line basic string")));
                    } else {
                        proof {
                            lemma_prepend_prepend(out@, seq![c], ml_basic_body(s, i + 1));
                            assert(out@ + seq![c] =~= out@.push(c));
                        }
                        crate::text::push_char(&mut out, c);
                        self.advance();
                    }
                },
            }
        }
    }

    /// Reads a multi-line literal string whose opening delimiter is at the
    /// current position.
    fn lex_ml_literal_string(&mut self) -> (r: Result<String, ParseError>)
        requires
            old(self).wf(),
            old(self).pos + 3 <= old(self).input.len(),
        ensures
            final(self).wf(),
            final(self).input == old(self).input,
            final(self).peek_buf == old(self).peek_buf,
            final(self).key_mode == old(self).key_mode,
            final(self).pos >= old(self).pos,
            r is Ok ==> final(self).pos > old(self).pos,
            body_as(r, final(self).pos as int, old(self).input@, old(self).pos as int,
                ml_literal_body(old(self).input@, ml_content_start(old(self).input@, old(self).pos as int)),
                "unterminated multi-line literal string"@),
    {
        let ghost s = self.input@;
        let ghost p = self.pos as int;
        let line = self.line;
        let col = self.col;
        self.advance_by(3);
        if self.is_at('\n') {
            self.advance();
        } else if self.is_at('\r') && self.char_at(1) == Some('\n') {
            self.advance_by(2);
        }
        let mut out = String::new();
        loop
            invariant
                self.wf(),
                self.input == old(self).input,
                s == old(self).input@,
                self.peek_buf == old(self).peek_buf,
                self.key_mode == old(self).key_mode,
                self.pos >= old(self).pos,
                p == old(self).pos,
                line == line_at(s, p),
                col == col_at(s, p),
                ml_literal_body(s, ml_content_start(s, p)) == prepend(out@, ml_literal_body(s, self.pos as int)),
            decreases s.len() - self.pos,
        {
            let ghost i = self.pos as int;
            match self.current_char() {
                None => {
                    proof {
                        reveal_strlit("unterminated multi-line literal string");
                    }
                    return Err(ParseError::new("unterminated multi-line literal string".to_string(), line, col));
                },
                Some(c) => {
                    if c == '\'' {
                        let ghost q0 = self.pos as int;
                        let mut count: usize = 0;
                        proof {
                            lemma_quote_run(s, q0, '\'', 5);
                        }
                        while self.is_at('\'') && count < 5
                            invariant
                                self.wf(),
                                self.input == old(self).input,
                                s == old(self).input@,
                                self.peek_buf == old(self).peek_buf,
                                self.key_mode == old(self).key_mode,
                                self.pos >= old(self).pos,
                                count <= 5,
                                self.pos == q0 + count,
                                quote_run(s, q0, '\'', 5) == count + quote_run(s, self.pos as int, '\'', (5 - count) as nat),
                            decreases 5 - count,
                        {
                            self.advance();
                            count = count + 1;
                        }
                        let ghost k = count as nat;
                        assert(quote_run(s, q0, '\'', 5) == k);
                        let ghost out0 = out@;
                        if count >= 3 {
                            let mut j: usize = 0;
                            while j < count - 3
                                invariant
                                    j <= count - 3,
                                    out@ == out0 + repeat('\'', j as nat),
                                decreases count - 3 - j,
                            {
                                crate::text::push_char(&mut out, '\'');
                                j = j + 1;
                                assert(out@ =~= out0 + repeat('\'', j as nat));
                            }
                            return Ok(out);
                        } else {
                            let mut j: usize = 0;
                            while j < count
                                invariant
                                    j <= count,
                                    out@ == out0 + repeat('\'', j as nat),
                                decreases count - j,
                            {
                                crate::text::push_char(&mut out, '\'');
                                j = j + 1;
                                assert(out@ =~= out0 + repeat('\'', j as nat));
                            }
                            proof {
                                lemma_prepend_prepend(out0, repeat('\'', k), ml_literal_body(s, self.pos as int));
                            }
                        }
                    } else if is_ml_control_char(c) {
                        return Err(self.err_with(control_message(c, "multi-line literal string")));
                    } else {
                        proof {
                            lemma_prepend_prepend(out@, seq![c], ml_literal_body(s, i + 1));
                            assert(out@ + seq![c] =~= out@.push(c));
                        }
                        crate::text::push_char(&mut out, c);
                        self.advance();
                    }
                },
            }
        }
    }

    /// Reads the digits of an integer in `base` (the prefix has been read);
    /// errors about the whole number are reported at `line`/`col`, the
    /// position `p` where the token starts.
    fn lex_based_integer(&mut self, base: u32, line: u32, col: u32, Ghost(p): Ghost<int>) -> (r: Result<Token, ParseError>)
        requires
            old(self).wf(),
            base == 16 || base == 8 || base == 2,
            line == line_at(old(self).input@, p),
            col == col_at(old(self).input@, p),
        ensures
            final(self).wf(),
            final(self).input == old(self).input,
            final(self).peek_buf == old(self).peek_buf,
            final(self).key_mode == old(self).key_mode,
            final(self).pos >= old(self).pos,
            lexed_as(r, final(self).pos as int, old(self).input@, based_at(old(self).input@, old(self).pos as int, base as nat, p)),
    {
        let ghost s = self.input@;
        let ghost q = self.pos as int;
        match self.current_char() {
            Some(c) => {
                if !is_base_digit_char(c, base) {
                    proof {
                        reveal_strlit("expected digit after base prefix");
                    }
                    return Err(ParseError::new("expected digit after base prefix".to_string(), line, col));
                }
            },
            None => {
                proof {
                    reveal_strlit("expected digit after base prefix");
                }
                return Err(ParseError::new("expected digit after base prefix".to_string(), line, col));
            },
        }
        let mut value: u64 = 0;
        let mut prev_us = false;
        let mut first = true;
        loop
            invariant
                self.wf(),
                self.input == old(self).input,
                s == old(self).input@,
                self.peek_buf == old(self).peek_buf,
                self.key_mode == old(self).key_mode,
                self.pos >= old(self).pos,
                base == 16 || base == 8 || base == 2,
                line == line_at(s, p),
                col == col_at(s, p),
                q == old(self).pos,
                0 <= q < s.len() && is_base_digit(s[q], base as nat),
                based_scan(s, q, base as nat, 0, false, true, p)
                    == based_scan(s, self.pos as int, base as nat, value as nat, prev_us, first, p),
            ensures
                !(self.pos < s.len() && (s[self.pos as int] == '_' || is_base_digit(s[self.pos as int], base as nat))),
            decreases s.len() - self.pos,
        {
            match self.current_char() {
                Some(c) => {
                    if c == '_' {
                        if first || prev_us {
                            proof {
                                reveal_strlit("invalid underscore placement in integer");
                            }
                            return Err(self.err("invalid underscore placement in integer"));
                        }
                        prev_us = true;
                        self.advance();
                    } else if is_base_digit_char(c, base) {
                        let d = hex_val(c) as u64;
                        match value.checked_mul(base as u64) {
                            Some(m) => match m.checked_add(d) {
                                Some(v) => {
                                    value = v;
                                },
                                None => {
                                    proof {
                                        reveal_strlit("integer overflow");
                                    }
                                    return Err(ParseError::new("integer overflow".to_string(), line, col));
                                },
                            },
                            None => {
                                proof {
                                    reveal_strlit("integer overflow");
                                }
                                return Err(ParseError::new("integer overflow".to_string(), line, col));
                            },
                        }
                        prev_us = false;
                        first = false;
                        self.advance();
                    } else {
                        break;
                    }
                },
                None => {
                    break;
                },
            }
        }
        if prev_us {
            proof {
                reveal_strlit("integer cannot end with underscore");
            }
            return Err(self.err("integer cannot end with underscore"));
        }
        Ok(Token::Integer(value as i64))
    }

    /// Reads digits separated by single underscores, from a position that
    /// holds a digit: those of a float's fraction, or of its exponent when
    /// `exp`.
    fn lex_digit_run(&mut self, exp: bool) -> (r: Result<(), ParseError>)
        requires
            old(self).wf(),
        ensures
            final(self).wf(),
            final(self).input == old(self).input,
            final(self).peek_buf == old(self).peek_buf,
            final(self).key_mode == old(self).key_mode,
            final(self).pos >= old(self).pos,
            match digit_run_us(old(self).input@, old(self).pos as int, false, exp) {
                Num::Done(_, e) => r is Ok && final(self).pos == e,
                Num::Fail(f, m) => r is Err && reported_at(r->Err_0, old(self).input@, f, m),
            },
            final(self).pos >= old(self).pos,
    {
        let ghost s = self.input@;
        let ghost q = self.pos as int;
        let mut prev_us = false;
        loop
            invariant
                self.wf(),
                self.input == old(self).input,
                s == old(self).input@,
                self.peek_buf == old(self).peek_buf,
                self.key_mode == old(self).key_mode,
                self.pos >= old(self).pos,
                q == old(self).pos,
                q <= self.pos,
                digit_run_us(s, q, false, exp) == digit_run_us(s, self.pos as int, prev_us, exp),
            ensures
                q <= self.pos,
                !(self.pos < s.len() && (s[self.pos as int] == '_' || is_digit(s[self.pos as int]))),
            decreases s.len() - self.pos,
        {
            match self.current_char() {
                Some(c) => {
                    if c == '_' {
                        if prev_us {
                            if exp {
                                proof {
                                    reveal_strlit("adjacent underscores in float exponent");
                                }
                                return Err(self.err("adjacent underscores in float exponent"));
                            }
                            proof {
                                reveal_strlit("adjacent underscores in float");
                            }
                            return Err(self.err("adjacent underscores in float"));
                        }
                        prev_us = true;
                        self.advance();
                    } else if is_digit_char(c) {
                        prev_us = false;
                        self.advance();
                    } else {
                        break;
                    }
                },
                None => {
                    break;
                },
            }
        }
        if prev_us {
            if exp {
                proof {
                    reveal_strlit("float exponent cannot end with underscore");
                }
                return Err(self.err("float exponent cannot end with underscore"));
            }
            proof {
                reveal_strlit("float cannot end with underscore");
            }
            return Err(self.err("float cannot end with underscore"));
        }
        Ok(())
    }

    /// Reads the fraction and exponent of a float whose integer digits are
    /// `input[q..pos]`, and gives the float's text.
    fn lex_float_continuation(&mut self, q: usize, neg: bool) -> (r: Result<Token, ParseError>)
        requires
            old(self).wf(),
            q <= old(self).pos,
        ensures
            final(self).wf(),
            final(self).input == old(self).input,
            final(self).peek_buf == old(self).peek_buf,
            final(self).key_mode == old(self).key_mode,
            final(self).pos >= old(self).pos,
            lexed_as(r, final(self).pos as int, old(self).input@, float_at(old(self).input@, q as int, old(self).pos as int, neg)),
            final(self).pos >= old(self).pos,
    {
        let ghost s = self.input@;
        let ghost i = self.pos as int;
        if self.is_at('.') {
            self.advance();
            match self.current_char() {
                Some(c) => {
                    if !is_digit_char(c) {
                        proof {
                            reveal_strlit("expected digit after decimal point in float");
                        }
                        return Err(self.err("expected digit after decimal point in float"));
                    }
                },
                None => {
                    proof {
                        reveal_strlit("expected digit after decimal point in float");
                    }
                    return Err(self.err("expected digit after decimal point in float"));
                },
            }
            self.lex_digit_run(false)?;
        }
        let ghost k = self.pos as int;
        assert(float_end(s, i) == exponent_end(s, k) || float_end(s, i) is Fail);
        if self.is_at('e') || self.is_at('E') {
            self.advance();
            if self.is_at('+') || self.is_at('-') {
                self.advance();
            }
            match self.current_char() {
                Some(c) => {
                    if !is_digit_char(c) {
                        proof {
                            reveal_strlit("expected digit in float exponent");
                        }
                        return Err(self.err("expected digit in float exponent"));
                    }
                },
                None => {
                    proof {
                        reveal_strlit("expected digit in float exponent");
                    }
                    return Err(self.err("expected digit in float exponent"));
                },
            }
            self.lex_digit_run(true)?;
        }
        let end = self.pos;
        let mut text = String::new();
        if neg {
            crate::text::push_char(&mut text, '-');
        }
        let ghost prefix = text@;
        let mut j = q;
        assert(s.subrange(q as int, q as int) =~= Seq::<char>::empty());
        while j < end
            invariant
                self.wf(),
                self.input@ == s,
                q <= j <= end <= s.len(),
                text@ == prefix + strip_underscores(s.subrange(q as int, j as int)),
            decreases end - j,
        {
            let c = self.input[j];
            assert(s.subrange(q as int, j + 1).drop_last() =~= s.subrange(q as int, j as int));
            if c != '_' {
                crate::text::push_char(&mut text, c);
            }
            j = j + 1;
            assert(text@ =~= prefix + strip_underscores(s.subrange(q as int, j as int)));
        }
        Ok(Token::Float(text))
    }

    /// Reads a decimal integer or a float whose digits start at the current
    /// position; `line`/`col` are those of the token's start `p`.
    fn lex_decimal_number(&mut self, neg: bool, line: u32, col: u32, Ghost(p): Ghost<int>) -> (r: Result<Token, ParseError>)
        requires
            old(self).wf(),
            line == line_at(old(self).input@, p),
            col == col_at(old(self).input@, p),
        ensures
            final(self).wf(),
            final(self).input == old(self).input,
            final(self).peek_buf == old(self).peek_buf,
            final(self).key_mode == old(self).key_mode,
            final(self).pos >= old(self).pos,
            r is Ok ==> final(self).pos > old(self).pos,
            lexed_as(r, final(self).pos as int, old(self).input@,
                decimal_at(old(self).input@, old(self).pos as int, p, neg, old(self).key_mode)),
    {
        let ghost s = self.input@;
        let q = self.pos;
        let mut value: u64 = 0;
        let mut overflow = false;
        let ghost mut acc: nat = 0;
        let mut count: usize = 0;
        let mut lead0 = false;
        let mut prev_us = false;
        let mut first = true;
        loop
            invariant
                self.wf(),
                self.input == old(self).input,
                s == old(self).input@,
                self.peek_buf == old(self).peek_buf,
                self.key_mode == old(self).key_mode,
                self.pos >= old(self).pos,
                q == old(self).pos,
                q <= self.pos,
                count <= self.pos - q,
                line == line_at(s, p),
                col == col_at(s, p),
                !overflow ==> value == acc,
                overflow ==> acc > u64::MAX,
                dec_scan(s, q as int, 0, 0, false, false, true)
                    == dec_scan(s, self.pos as int, acc, count as nat, lead0, prev_us, first),
            ensures
                !(self.pos < s.len() && (s[self.pos as int] == '_' || is_digit(s[self.pos as int]))),
            decreases s.len() - self.pos,
        {
            match self.current_char() {
                Some(c) => {
                    if c == '_' {
                        if first || prev_us {
                            proof {
                                reveal_strlit("invalid underscore placement in number");
                            }
                            return Err(self.err("invalid underscore placement in number"));
                        }
                        prev_us = true;
                        self.advance();
                    } else if is_digit_char(c) {
                        if first && c == '0' {
                            lead0 = true;
                        }
                        let d = hex_val(c) as u64;
                        proof {
                            acc = (acc * 10 + d) as nat;
                        }
                        if !overflow {
                            match value.checked_mul(10) {
                                Some(m) => match m.checked_add(d) {
                                    Some(v) => {
                                        value = v;
                                    },
                                    None => {
                                        overflow = true;
                                    },
                                },
                                None => {
                                    overflow = true;
                                },
                            }
                        }
                        first = false;
                        prev_us = false;
                        count = count + 1;
                        self.advance();
                    } else {
                        break;
                    }
                },
                None => {
                    break;
                },
            }
        }
        if prev_us {
            proof {
                reveal_strlit("number cannot end with underscore");
            }
            return Err(self.err("number cannot end with underscore"));
        }
        if count == 0 {
            proof {
                reveal_strlit("expected digit");
            }
            return Err(ParseError::new("expected digit".to_string(), line, col));
        }
        let is_float = !self.key_mode && (self.is_at('.') || self.is_at('e') || self.is_at('E'));
        if is_float {
            return self.lex_float_continuation(q, neg);
        }
        if lead0 && count > 1 {
            proof {
                reveal_strlit("leading zeros not allowed in integer");
            }
            return Err(ParseError::new("leading zeros not allowed in integer".to_string(), line, col));
        }
        if overflow {
            proof {
                reveal_strlit("integer overflow");
            }
            return Err(ParseError::new("integer overflow".to_string(), line, col));
        }
        if neg {
            if value > 0x8000_0000_0000_0000u64 {
                proof {
                    reveal_strlit("integer overflow");
                }
                return Err(ParseError::new("integer overflow".to_string(), line, col));
            }
            if value == 0x8000_0000_0000_0000u64 {
                Ok(Token::Integer(i64::MIN))
            } else {
                Ok(Token::Integer(-(value as i64)))
            }
        } else {
            if value > 0x7FFF_FFFF_FFFF_FFFFu64 {
                proof {
                    reveal_strlit("integer overflow");
                }
                return Err(ParseError::new("integer overflow".to_string(), line, col));
            }
            Ok(Token::Integer(value as i64))
        }
    }

    /// Reads an integer or a float whose first character (a sign or a digit)
    /// is at the current position.
    fn lex_number(&mut self) -> (r: Result<Token, ParseError>)
        requires
            old(self).wf(),
            old(self).pos < old(self).input.len(),
        ensures
            final(self).wf(),
            final(self).input == old(self).input,
            final(self).peek_buf == old(self).peek_buf,
            final(self).key_mode == old(self).key_mode,
            final(self).pos >= old(self).pos,
            r is Ok ==> final(self).pos > old(self).pos,
            lexed_as(r, final(self).pos as int, old(self).input@,
                number_at(old(self).input@, old(self).pos as int, old(self).key_mode)),
    {
        let ghost p = self.pos as int;
        let line = self.line;
        let col = self.col;
        let has_sign = self.is_at('+') || self.is_at('-');
        let sign_neg = self.is_at('-');
        if has_sign {
            self.advance();
        }
        if self.is_at('0') {
            let next = self.char_at(1);
            let base: u32 = if next == Some('x') {
                16
            } else if next == Some('o') {
                8
            } else if next == Some('b') {
                2
            } else {
                0
            };
            if base != 0 {
                if has_sign {
                    let m: &str = if base == 16 {
                        "sign prefix not allowed on hex integer"
                    } else if base == 8 {
                        "sign prefix not allowed on octal integer"
                    } else {
                        "sign prefix not allowed on binary integer"
                    };
                    proof {
                        reveal_strlit("sign prefix not allowed on hex integer");
                        reveal_strlit("sign prefix not allowed on octal integer");
                        reveal_strlit("sign prefix not allowed on binary integer");
                    }
                    return Err(ParseError::new(m.to_string(), line, col));
                }
                self.advance_by(2);
                return self.lex_based_integer(base, line, col, Ghost(p));
            }
        }
        self.lex_decimal_number(sign_neg, line, col, Ghost(p))
    }

    /// Reads the token at the current position, which holds `+` or `-`.
    fn lex_number_or_special(&mut self) -> (r: Result<Token, ParseError>)
        requires
            old(self).wf(),
            old(self).pos < old(self).input.len(),
        ensures
            final(self).wf(),
            final(self).input == old(self).input,
            final(self).peek_buf == old(self).peek_buf,
            final(self).key_mode == old(self).key_mode,
            final(self).pos >= old(self).pos,
            r is Ok ==> final(self).pos > old(self).pos,
            lexed_as(r, final(self).pos as int, old(self).input@,
                signed_at(old(self).input@, old(self).pos as int, old(self).key_mode)),
    {
        let c1 = self.char_at(1);
        let c2 = self.char_at(2);
        let c3 = self.char_at(3);
        if c1 == Some('i') && c2 == Some('n') && c3 == Some('f') {
            let text = if self.is_at('+') {
                String::from_str("inf")
            } else {
                String::from_str("-inf")
            };
            proof {
                reveal_strlit("inf");
                reveal_strlit("-inf");
                if self.input@[self.pos as int] == '+' {
                    assert(text@ =~= seq!['i', 'n', 'f']);
                } else {
                    assert(text@ =~= seq!['-', 'i', 'n', 'f']);
                }
            }
            self.advance_by(4);
            return Ok(Token::Float(text));
        }
        if c1 == Some('n') && c2 == Some('a') && c3 == Some('n') {
            let text = String::from_str("nan");
            proof {
                reveal_strlit("nan");
                assert(text@ =~= seq!['n', 'a', 'n']);
            }
            self.advance_by(4);
            return Ok(Token::Float(text));
        }
        self.lex_number()
    }

    /// Reads `count` decimal digits; `msg` is the message where one is
    /// missing.
    fn parse_digits(&mut self, count: u32, msg: &str) -> (r: Result<u32, ParseError>)
        requires
            old(self).wf(),
            count <= 9,
            msg@.len() > 0,
        ensures
            final(self).wf(),
            final(self).input == old(self).input,
            final(self).peek_buf == old(self).peek_buf,
            final(self).key_mode == old(self).key_mode,
            final(self).pos >= old(self).pos,
            match digits_scan(old(self).input@, old(self).pos as int, count as nat, 0) {
                Num::Done(v, e) => r == Ok::<u32, ParseError>(v as u32) && final(self).pos == e && v < pow10(count as nat),
                Num::Fail(q, _) => r is Err && reported_at(r->Err_0, old(self).input@, q, msg@),
            },
    {
        let ghost s = self.input@;
        let ghost start = self.pos as int;
        let mut val: u32 = 0;
        let mut k: u32 = 0;
        proof {
            lemma_digits_scan_bound(s, start, count as nat, 0);
        }
        while k < count
            invariant
                self.wf(),
                self.input == old(self).input,
                s == old(self).input@,
                self.peek_buf == old(self).peek_buf,
                self.key_mode == old(self).key_mode,
                self.pos >= old(self).pos,
                start == old(self).pos,
                k <= count <= 9,
                self.pos == start + k,
                val < pow10(k as nat),
                digits_scan(s, start, count as nat, 0) == digits_scan(s, self.pos as int, (count - k) as nat, val as nat),
                msg@.len() > 0,
            decreases count - k,
        {
            proof {
                lemma_pow10_bound((k + 1) as nat);
                assert(pow10((k + 1) as nat) == 10 * pow10(k as nat));
            }
            match self.current_char() {
                Some(c) => {
                    if is_digit_char(c) {
                        val = val * 10 + hex_val(c);
                        self.advance();
                        k = k + 1;
                    } else {
                        return Err(self.err(msg));
                    }
                },
                None => {
                    return Err(self.err(msg));
                },
            }
        }
        Ok(val)
    }

    /// Reads the character `c`.
    fn expect_char(&mut self, c: char) -> (r: Result<(), ParseError>)
        requires
            old(self).wf(),
        ensures
            final(self).wf(),
            final(self).input == old(self).input,
            final(self).peek_buf == old(self).peek_buf,
            final(self).key_mode == old(self).key_mode,
            final(self).pos >= old(self).pos,
            (old(self).pos < old(self).input.len() && old(self).input@[old(self).pos as int] == c) ==> r is Ok
                && final(self).pos == old(self).pos + 1,
            !(old(self).pos < old(self).input.len() && old(self).input@[old(self).pos as int] == c) ==> r is Err
                && reported_at(r->Err_0, old(self).input@, old(self).pos as int,
                expect_msg(old(self).input@, old(self).pos as int, c)),
    {
        if self.is_at(c) {
            self.advance();
            Ok(())
        } else {
            let mut m = String::from_str("expected '");
            crate::text::push_char(&mut m, c);
            match self.current_char() {
                Some(x) => {
                    m.append("', found '");
                    crate::text::push_char(&mut m, x);
                    m.append("'");
                },
                None => {
                    m.append("', found EOF");
                },
            }
            proof {
                reveal_strlit("expected '");
            }
            assert(m@ =~= expect_msg(self.input@, self.pos as int, c));
            Err(self.err_with(m))
        }
    }

    /// Reads a time `HH:MM:SS[.fraction]`; range errors are reported at
    /// `line`/`col`, those of the token's start `p`.
    fn lex_time(&mut self, line: u32, col: u32, Ghost(p): Ghost<int>) -> (r: Result<LocalTime, ParseError>)
        requires
            old(self).wf(),
            line == line_at(old(self).input@, p),
            col == col_at(old(self).input@, p),
        ensures
            final(self).wf(),
            final(self).input == old(self).input,
            final(self).peek_buf == old(self).peek_buf,
            final(self).key_mode == old(self).key_mode,
            final(self).pos >= old(self).pos,
            r is Ok ==> final(self).pos > old(self).pos,
            match time_scan(old(self).input@, old(self).pos as int, p) {
                TimeScan::Done(t, e) => r == Ok::<LocalTime, ParseError>(t) && final(self).pos == e,
                TimeScan::Fail(q, m) => r is Err && reported_at(r->Err_0, old(self).input@, q, m),
            },
    {
        let ghost s = self.input@;
        proof {
            reveal_with_fuel(pow10, 3);
        }
        proof {
            reveal_strlit("expected 2 digits for hour");
            reveal_strlit("expected 2 digits for minute");
            reveal_strlit("expected 2 digits for second");
            reveal_strlit("invalid hour ");
            reveal_strlit("invalid minute ");
            reveal_strlit("invalid second ");
        }
        let hour = self.parse_digits(2, "expected 2 digits for hour")?;
        self.expect_char(':')?;
        let minute = self.parse_digits(2, "expected 2 digits for minute")?;
        self.expect_char(':')?;
        let second = self.parse_digits(2, "expected 2 digits for second")?;
        if hour > 23 {
            return Err(ParseError::new(number_message("invalid hour ", hour), line, col));
        }
        if minute > 59 {
            return Err(ParseError::new(number_message("invalid minute ", minute), line, col));
        }
        if second > 60 {
            return Err(ParseError::new(number_message("invalid second ", second), line, col));
        }
        let ghost i3 = self.pos as int;
        let nanosecond: u32 = if self.is_at('.') {
            self.advance();
            let frac_start = self.pos;
            let mut digits: usize = 0;
            while self.pos < self.input.len() && is_digit_char(self.input[self.pos])
                invariant
                    self.wf(),
                    self.input == old(self).input,
                    s == old(self).input@,
                    self.peek_buf == old(self).peek_buf,
                    self.key_mode == old(self).key_mode,
                    self.pos >= old(self).pos,
                    self.pos == frac_start + digits,
                    digit_count(s, frac_start as int) == digits + digit_count(s, self.pos as int),
                decreases s.len() - self.pos,
            {
                self.advance();
                digits = digits + 1;
            }
            if digits == 0 {
                proof {
                    reveal_strlit("expected digits after decimal point in time");
                }
                return Err(self.err("expected digits after decimal point in time"));
            }
            let n: usize = if digits < 9 { digits } else { 9 };
            let mut val: u32 = 0;
            let mut j: usize = 0;
            proof {
                lemma_digit_count_digits(s, frac_start as int, n as nat);
            }
            while j < n
                invariant
                    self.wf(),
                    self.input@ == s,
                    j <= n <= 9,
                    frac_start + n <= s.len(),
                    forall|t: int| frac_start <= t < frac_start + n ==> is_digit(#[trigger] s[t]),
                    val < pow10(j as nat),
                    digits_scan(s, frac_start as int, n as nat, 0)
                        == digits_scan(s, frac_start + j, (n - j) as nat, val as nat),
                decreases n - j,
            {
                proof {
                    lemma_pow10_bound((j + 1) as nat);
                    assert(pow10((j + 1) as nat) == 10 * pow10(j as nat));
                }
                let c = self.input[frac_start + j];
                val = val * 10 + hex_val(c);
                j = j + 1;
            }
            let ghost v0 = val as nat;
            let mut m: usize = n;
            proof {
                lemma_pow10_bound(n as nat);
                assert(v0 * pow10(0) == v0);
            }
            while m < 9
                invariant
                    n <= m <= 9,
                    v0 < pow10(n as nat),
                    val as nat == v0 * pow10((m - n) as nat),
                decreases 9 - m,
            {
                proof {
                    lemma_pow10_step(v0, (m - n) as nat);
                    lemma_pow10_bound((m + 1 - n) as nat);
                    lemma_pow10_bound(n as nat);
                    assert(v0 * pow10((m + 1 - n) as nat) < pow10(n as nat) * pow10((m + 1 - n) as nat)) by (nonlinear_arith)
                        requires v0 < pow10(n as nat), pow10((m + 1 - n) as nat) >= 1;
                    lemma_pow10_mul(n as nat, (m + 1 - n) as nat);
                    lemma_pow10_bound((m + 1) as nat);
                }
                val = val * 10;
                m = m + 1;
            }
            val
        } else {
            0
        };
        Ok(LocalTime { hour: hour as u8, minute: minute as u8, second: second as u8, nanosecond })
    }

    /// Reads an offset `+HH:MM` or `-HH:MM`; range errors are reported at
    /// `line`/`col`, those of the token's start `p`.
    fn lex_offset(&mut self, line: u32, col: u32, Ghost(p): Ghost<int>) -> (r: Result<UtcOffset, ParseError>)
        requires
            old(self).wf(),
            old(self).pos < old(self).input.len(),
            line == line_at(old(self).input@, p),
            col == col_at(old(self).input@, p),
        ensures
            final(self).wf(),
            final(self).input == old(self).input,
            final(self).peek_buf == old(self).peek_buf,
            final(self).key_mode == old(self).key_mode,
            final(self).pos >= old(self).pos,
            match offset_scan(old(self).input@, old(self).pos as int, p) {
                OffsetScan::Done(o, e) => r == Ok::<UtcOffset, ParseError>(o) && final(self).pos == e,
                OffsetScan::Fail(q, m) => r is Err && reported_at(r->Err_0, old(self).input@, q, m),
            },
    {
        proof {
            reveal_with_fuel(pow10, 3);
        }
        let negative = self.is_at('-');
        self.advance();
        proof {
            reveal_strlit("expected 2 digits for offset hours");
            reveal_strlit("expected 2 digits for offset minutes");
            reveal_strlit("invalid UTC offset ");
        }
        let h = self.parse_digits(2, "expected 2 digits for offset hours")?;
        self.expect_char(':')?;
        let m = self.parse_digits(2, "expected 2 digits for offset minutes")?;
        if h > 23 || m > 59 {
            let mut msg = number_message("invalid UTC offset ", h);
            msg.append(":");
            crate::text::push_nat(&mut msg, m as u64);
            return Err(ParseError::new(msg, line, col));
        }
        let total: i16 = (h * 60 + m) as i16;
        Ok(UtcOffset::Minutes(if negative { -total } else { total }))
    }

    /// Reads what follows a date and its separator: a time, then an offset
    /// if there is one.
    fn lex_after_date(&mut self, date: LocalDate, line: u32, col: u32, Ghost(p): Ghost<int>) -> (r: Result<Token, ParseError>)
        requires
            old(self).wf(),
            line == line_at(old(self).input@, p),
            col == col_at(old(self).input@, p),
        ensures
            final(self).wf(),
            final(self).input == old(self).input,
            final(self).peek_buf == old(self).peek_buf,
            final(self).key_mode == old(self).key_mode,
            final(self).pos >= old(self).pos,
            lexed_as(r, final(self).pos as int, old(self).input@, after_date(old(self).input@, date, old(self).pos as int, p)),
    {
        let time = self.lex_time(line, col, Ghost(p))?;
        if self.is_at('Z') || self.is_at('z') {
            self.advance();
            return Ok(Token::OffsetDateTimeToken(OffsetDateTime { date, time, offset: UtcOffset::Z }));
        }
        if self.is_at('+') || self.is_at('-') {
            let offset = self.lex_offset(line, col, Ghost(p))?;
            return Ok(Token::OffsetDateTimeToken(OffsetDateTime { date, time, offset }));
        }
        Ok(Token::LocalDateTimeToken(LocalDateTime { date, time }))
    }

    /// Reads a date, or a date-time, whose first digit is at the current position.
    fn lex_datetime(&mut self) -> (r: Result<Token, ParseError>)
        requires
            old(self).wf(),
        ensures
            final(self).wf(),
            final(self).input == old(self).input,
            final(self).peek_buf == old(self).peek_buf,
            final(self).key_mode == old(self).key_mode,
            final(self).pos >= old(self).pos,
            r is Ok ==> final(self).pos > old(self).pos,
            lexed_as(r, final(self).pos as int, old(self).input@, datetime_at(old(self).input@, old(self).pos as int)),
    {
        let ghost p = self.pos as int;
        let line = self.line;
        let col = self.col;
        proof {
            reveal_with_fuel(pow10, 5);
        }
        proof {
            reveal_strlit("expected 4 digits for year");
            reveal_strlit("expected 2 digits for month");
            reveal_strlit("expected 2 digits for day");
            reveal_strlit("invalid month ");
            reveal_strlit("invalid day ");
        }
        let year = self.parse_digits(4, "expected 4 digits for year")?;
        self.expect_char('-')?;
        let month = self.parse_digits(2, "expected 2 digits for month")?;
        self.expect_char('-')?;
        let day = self.parse_digits(2, "expected 2 digits for day")?;
        if month < 1 || month > 12 {
            return Err(ParseError::new(number_message("invalid month ", month), line, col));
        }
        if day < 1 || day > 31 {
            return Err(ParseError::new(number_message("invalid day ", day), line, col));
        }
        let date = LocalDate { year: year as u16, month: month as u8, day: day as u8 };
        if self.is_at('T') || self.is_at('t') {
            self.advance();
            return self.lex_after_date(date, line, col, Ghost(p));
        }
        let next_is_digit = match self.char_at(1) {
            Some(c) => is_digit_char(c),
            None => false,
        };
        if self.is_at(' ') && next_is_digit {
            self.advance();
            return self.lex_after_date(date, line, col, Ghost(p));
        }
        Ok(Token::LocalDateToken(date))
    }

    /// Reads the token whose first character, a digit, is at the current
    /// position: a date, a time or a number.
    fn lex_number_or_datetime(&mut self) -> (r: Result<Token, ParseError>)
        requires
            old(self).wf(),
            old(self).pos < old(self).input.len(),
        ensures
            final(self).wf(),
            final(self).input == old(self).input,
            final(self).peek_buf == old(self).peek_buf,
            final(self).key_mode == old(self).key_mode,
            final(self).pos >= old(self).pos,
            r is Ok ==> final(self).pos > old(self).pos,
            lexed_as(r, final(self).pos as int, old(self).input@,
                digit_start_at(old(self).input@, old(self).pos as int, old(self).key_mode)),
    {
        let ghost s = self.input@;
        let ghost p = self.pos as int;
        let d0 = self.digit_at(0);
        let d1 = self.digit_at(1);
        let d2 = self.digit_at(2);
        let d3 = self.digit_at(3);
        let d4 = self.digit_at(4);
        let d5 = self.digit_at(5);
        let d6 = self.digit_at(6);
        let is_date_like = d0 && d1 && d2 && d3 && self.char_at(4) == Some('-') && d5 && d6;
        let is_time_like = d0 && d1 && self.char_at(2) == Some(':') && d3 && d4;
        assert(is_date_like == date_like(s, p));
        assert(is_time_like == time_like(s, p));
        if is_date_like {
            return self.lex_datetime();
        }
        if is_time_like {
            let line = self.line;
            let col = self.col;
            let t = self.lex_time(line, col, Ghost(p))?;
            return Ok(Token::LocalTimeToken(t));
        }
        self.lex_number()
    }

    /// Whether the character `k` places ahead is a decimal digit.
    fn digit_at(&self, k: usize) -> (b: bool)
        requires
            self.wf(),
        ensures
            b == (self.pos + k < self.input.len() && is_digit(self.input@[self.pos + k])),
    {
        match self.char_at(k) {
            Some(c) => is_digit_char(c),
            None => false,
        }
    }

    /// Whether the keyword `w` stands at the current position, not followed
    /// by a word character.
    fn at_keyword(&self, w: &str) -> (b: bool)
        requires
            self.wf(),
        ensures
            b == keyword_at(self.input@, self.pos as int, w@),
    {
        let ghost s = self.input@;
        let ghost p = self.pos as int;
        let n = w.unicode_len();
        if n > self.input.len() - self.pos {
            return false;
        }
        let mut k: usize = 0;
        while k < n
            invariant
                self.wf(),
                n == w@.len(),
                p + n <= s.len(),
                s == self.input@,
                p == self.pos,
                k <= n,
                forall|t: int| 0 <= t < k ==> s[p + t] == w@[t],
            decreases n - k,
        {
            if self.input[self.pos + k] != w.get_char(k) {
                assert(s.subrange(p, p + n)[k as int] != w@[k as int]);
                return false;
            }
            k = k + 1;
        }
        assert(s.subrange(p, p + n) =~= w@);
        match self.char_at(n) {
            Some(c) => !is_word(c),
            None => true,
        }
    }

    /// Reads a bare key whose first character is at the current position.
    fn lex_bare_key(&mut self) -> (r: Result<Token, ParseError>)
        requires
            old(self).wf(),
        ensures
            final(self).wf(),
            final(self).input == old(self).input,
            final(self).peek_buf == old(self).peek_buf,
            final(self).key_mode == old(self).key_mode,
            final(self).pos >= old(self).pos,
            r is Ok ==> final(self).pos > old(self).pos,
            lexed_as(r, final(self).pos as int, old(self).input@, bare_key_at(old(self).input@, old(self).pos as int)),
    {
        let ghost s = self.input@;
        let ghost p = self.pos as int;
        let start = self.pos;
        let mut key = String::new();
        assert(s.subrange(p, p) =~= Seq::<char>::empty());
        while self.pos < self.input.len() && is_bare_key_char(self.input[self.pos])
            invariant
                self.wf(),
                self.input == old(self).input,
                s == old(self).input@,
                self.peek_buf == old(self).peek_buf,
                self.key_mode == old(self).key_mode,
                self.pos >= old(self).pos,
                start == p,
                p <= self.pos,
                key@ == s.subrange(p, self.pos as int),
                bare_end(s, p) == bare_end(s, self.pos as int),
            decreases s.len() - self.pos,
        {
            crate::text::push_char(&mut key, self.input[self.pos]);
            self.advance();
            assert(key@ =~= s.subrange(p, self.pos as int));
        }
        if self.pos == start {
            proof {
                reveal_strlit("expected bare key character");
            }
            return Err(self.err("expected bare key character"));
        }
        Ok(Token::BareKey(key))
    }

    /// Skips spaces, tabs and comments.
    fn skip_trivia(&mut self) -> (r: Result<(), ParseError>)
        requires
            old(self).wf(),
        ensures
            final(self).wf(),
            final(self).input == old(self).input,
            final(self).peek_buf == old(self).peek_buf,
            final(self).key_mode == old(self).key_mode,
            final(self).pos >= old(self).pos,
            match skip_trivia(old(self).input@, old(self).pos as int) {
                Trivia::Next(p) => r is Ok && final(self).pos == p,
                Trivia::Fail(q, m) => r is Err && reported_at(r->Err_0, old(self).input@, q, m),
            },
    {
        let ghost s = self.input@;
        let ghost start = self.pos as int;
        loop
            invariant
                self.wf(),
                self.input == old(self).input,
                s == old(self).input@,
                self.peek_buf == old(self).peek_buf,
                self.key_mode == old(self).key_mode,
                self.pos >= old(self).pos,
                skip_trivia(s, start) == skip_trivia(s, self.pos as int),
                start == old(self).pos,
            decreases s.len() - self.pos,
        {
            let ghost pos0 = self.pos as int;
            while self.is_at(' ') || self.is_at('\t')
                invariant
                    self.wf(),
                    self.pos >= pos0,
                    self.input == old(self).input,
                    s == old(self).input@,
                    self.peek_buf == old(self).peek_buf,
                    self.key_mode == old(self).key_mode,
                    self.pos >= old(self).pos,
                    skip_trivia(s, start) == skip_trivia(s, self.pos as int),
                decreases s.len() - self.pos,
            {
                self.advance();
            }
            if !self.is_at('#') {
                return Ok(());
            }
            let ghost h = self.pos as int;
            let line = self.line;
            let col = self.col;
            self.advance();
            loop
                invariant
                    self.wf(),
                    self.input == old(self).input,
                    s == old(self).input@,
                    self.peek_buf == old(self).peek_buf,
                    self.key_mode == old(self).key_mode,
                    self.pos >= old(self).pos,
                    skip_trivia(s, start) == comment_scan(s, h, self.pos as int),
                    start == old(self).pos,
                    h < self.pos,
                    line == line_at(s, h),
                    col == col_at(s, h),
                ensures
                    skip_trivia(s, start) == skip_trivia(s, self.pos as int),
                    h < self.pos,
                decreases s.len() - self.pos,
            {
                match self.current_char() {
                    None => {
                        break;
                    },
                    Some(c) => {
                        if c == '\n' || c == '\r' {
                            break;
                        }
                        if is_control_char(c) {
                            return Err(ParseError::new(control_message(c, "comment"), line, col));
                        }
                        self.advance();
                    },
                }
            }
        }
    }

    /// Reads the next token from the text (the held-back token aside).
    fn lex_token(&mut self) -> (r: Result<Token, ParseError>)
        requires
            old(self).wf(),
        ensures
            final(self).wf(),
            final(self).input == old(self).input,
            final(self).peek_buf == old(self).peek_buf,
            final(self).key_mode == old(self).key_mode,
            final(self).pos >= old(self).pos,
            r is Ok && r->Ok_0.model() != TokenModel::Eof ==> final(self).pos > old(self).pos,
            lexed_as(r, final(self).pos as int, old(self).input@,
                lex_at(old(self).input@, old(self).pos as int, old(self).key_mode)),
    {
        reveal(lex_at);
        let ghost s = self.input@;
        self.skip_trivia()?;
        let ghost p = self.pos as int;
        proof {
            reveal_strlit("true");
            reveal_strlit("false");
            reveal_strlit("inf");
            reveal_strlit("nan");
            assert("true"@ =~= seq!['t', 'r', 'u', 'e']);
            assert("false"@ =~= seq!['f', 'a', 'l', 's', 'e']);
            assert("inf"@ =~= seq!['i', 'n', 'f']);
            assert("nan"@ =~= seq!['n', 'a', 'n']);
        }
        let c = match self.current_char() {
            None => {
                return Ok(Token::Eof);
            },
            Some(c) => c,
        };
        if c == '\n' {
            self.advance();
            Ok(Token::Newline)
        } else if c == '\r' {
            self.advance();
            if self.is_at('\n') {
                self.advance();
            }
            Ok(Token::Newline)
        } else if c == '=' {
            self.advance();
            Ok(Token::Equals)
        } else if c == '.' {
            self.advance();
            Ok(Token::Dot)
        } else if c == ',' {
            self.advance();
            Ok(Token::Comma)
        } else if c == '{' {
            self.advance();
            Ok(Token::LBrace)
        } else if c == '}' {
            self.advance();
            Ok(Token::RBrace)
        } else if c == '[' {
            self.advance();
            if self.is_at('[') {
                self.advance();
                Ok(Token::DoubleLBracket)
            } else {
                Ok(Token::LBracket)
            }
        } else if c == ']' {
            self.advance();
            if self.is_at(']') {
                self.advance();
                Ok(Token::DoubleRBracket)
            } else {
                Ok(Token::RBracket)
            }
        } else if c == '"' || c == '\'' {
            let triple = self.char_at(1) == Some(c) && self.char_at(2) == Some(c);
            if c == '"' {
                if triple {
                    Ok(Token::MlBasicString(self.lex_ml_basic_string()?))
                } else {
                    Ok(Token::BasicString(self.lex_basic_string()?))
                }
            } else {
                if triple {
                    Ok(Token::MlLiteralString(self.lex_ml_literal_string()?))
                } else {
                    Ok(Token::LiteralString(self.lex_literal_string()?))
                }
            }
        } else if !self.key_mode && c == 't' && self.at_keyword("true") {
            self.advance_by(4);
            Ok(Token::Boolean(true))
        } else if !self.key_mode && c == 'f' && self.at_keyword("false") {
            self.advance_by(5);
            Ok(Token::Boolean(false))
        } else if !self.key_mode && c == 'i' && self.at_keyword("inf") {
            self.advance_by(3);
            Ok(Token::Float(String::from_str("inf")))
        } else if !self.key_mode && c == 'n' && self.at_keyword("nan") {
            self.advance_by(3);
            Ok(Token::Float(String::from_str("nan")))
        } else if c == '+' || c == '-' {
            self.lex_number_or_special()
        } else if is_digit_char(c) {
            self.lex_number_or_datetime()
        } else if is_bare_key_char(c) {
            self.lex_bare_key()
        } else {
            let mut m = String::from_str("unexpected character ");
            m.append(crate::text::debug_char(c).as_str());
            proof {
                reveal_strlit("unexpected character ");
            }
            Err(self.err_with(m))
        }
    }

    /// The next token: the held-back one if there is one, else the one read
    /// from the text.
    pub fn next_token(&mut self) -> (r: Result<Token, ParseError>)
        requires
            old(self).wf(),
        ensures
            final(self).wf(),
            final(self).text() == old(self).text(),
            final(self).in_key_mode() == old(self).in_key_mode(),
            final(self).peeked() is None,
            final(self).measure() <= old(self).measure(),
            r is Ok ==> final(self).measure() + weight(r->Ok_0.model()) <= old(self).measure(),
            match old(self).peeked() {
                Some(t) => r is Ok && r->Ok_0.model() == t && final(self).position() == old(self).position(),
                None => lexed_as(r, final(self).position(), old(self).text(),
                    lex_at(old(self).text(), old(self).position(), old(self).in_key_mode())),
            },
            stepped_as(r, final(self).state(), old(self).text(), next_step(old(self).text(), old(self).state())),
    {
        match self.peek_buf.take() {
            Some(tok) => Ok(tok),
            None => self.lex_token(),
        }
    }

    /// The next token, kept to be returned again by `next_token`.
    pub fn peek_token(&mut self) -> (r: Result<&Token, ParseError>)
        requires
            old(self).wf(),
        ensures
            final(self).wf(),
            final(self).text() == old(self).text(),
            final(self).in_key_mode() == old(self).in_key_mode(),
            final(self).measure() <= old(self).measure(),
            match old(self).peeked() {
                Some(t) => r is Ok && r->Ok_0.model() == t && final(self).position() == old(self).position()
                    && final(self).peeked() == Some(t),
                None => match lex_at(old(self).text(), old(self).position(), old(self).in_key_mode()) {
                    Lexed::Tok(t, e) => r is Ok && r->Ok_0.model() == t && final(self).position() == e
                        && final(self).peeked() == Some(t),
                    Lexed::Fail(q, m) => r is Err && reported_at(r->Err_0, old(self).text(), q, m)
                        && final(self).peeked() is None,
                },
            },
            match peek_step(old(self).text(), old(self).state()) {
                Step::Tok(t, st) => r is Ok && r->Ok_0.model() == t && final(self).state() == st,
                Step::Fail(q, m) => r is Err && reported_at(r->Err_0, old(self).text(), q, m),
            },
    {
        if self.peek_buf.is_none() {
            let tok = self.lex_token()?;
            self.peek_buf = Some(tok);
        }
        match &self.peek_buf {
            Some(t) => Ok(t),
            None => {
                proof {
                    reveal_strlit("no token");
                }
                Err(self.err("no token"))
            },
        }
    }

    /// Holds `tok` back, to be returned by the next `next_token`.
    pub fn push_back(&mut self, tok: Token)
        requires
            old(self).wf(),
            old(self).peeked() is None,
        ensures
            final(self).wf(),
            final(self).text() == old(self).text(),
            final(self).position() == old(self).position(),
            final(self).in_key_mode() == old(self).in_key_mode(),
            final(self).peeked() == Some(tok.model()),
            final(self).measure() == old(self).measure() + weight(tok.model()),
            final(self).state() == (LexState { peeked: Some(tok.model()), ..old(self).state() }),
    {
        self.peek_buf = Some(tok);
    }

    /// Sets whether digits followed by `.` are read as key segments.
    pub fn set_key_mode(&mut self, on: bool)
        requires
            old(self).wf(),
        ensures
            final(self).wf(),
            final(self).text() == old(self).text(),
            final(self).position() == old(self).position(),
            final(self).peeked() == old(self).peeked(),
            final(self).in_key_mode() == on,
            final(self).measure() == old(self).measure(),
            final(self).state() == (LexState { key_mode: on, ..old(self).state() }),
    {
        self.key_mode = on;
    }
}

} // verus!
