//! The lexical grammar of TOML as this library reads it: spec functions that
//! say, for an input and a position, which token starts there and where it
//! ends, or at which position reading fails.

use vstd::prelude::*;
use crate::value::{LocalDate, LocalDateTime, LocalTime, OffsetDateTime, UtcOffset};
use crate::text::{char_debug, hex_min, nat_digits};

verus! {

// ---------------------------------------------------------------------------
// Character classes
// ---------------------------------------------------------------------------

pub open spec fn is_digit(c: char) -> bool {
    48 <= (c as u32) <= 57
}

pub open spec fn is_hex_digit(c: char) -> bool {
    let u = c as u32;
    is_digit(c) || (97 <= u <= 102) || (65 <= u <= 70)
}

/// The value of a hexadecimal digit.
pub open spec fn hex_value(c: char) -> nat {
    let u = c as u32;
    if 48 <= u <= 57 {
        (u - 48) as nat
    } else if 97 <= u <= 102 {
        (u - 87) as nat
    } else {
        (u - 55) as nat
    }
}

/// `A-Z a-z 0-9 _ -`
pub open spec fn bare_key_char(c: char) -> bool {
    let u = c as u32;
    (65 <= u <= 90) || (97 <= u <= 122) || (48 <= u <= 57) || u == 95 || u == 45
}

/// `A-Z a-z 0-9 _`: a character that may not follow a keyword.
pub open spec fn is_word_char(c: char) -> bool {
    let u = c as u32;
    (65 <= u <= 90) || (97 <= u <= 122) || (48 <= u <= 57) || u == 95
}

/// Control characters refused in comments and single-line strings.
pub open spec fn is_control(c: char) -> bool {
    let u = c as u32;
    u <= 8 || (10 <= u <= 31) || u == 127
}

/// Control characters refused in multi-line strings (tab, LF and CR are allowed).
pub open spec fn is_ml_control(c: char) -> bool {
    let u = c as u32;
    u <= 8 || (11 <= u <= 12) || (14 <= u <= 31) || u == 127
}

/// A Unicode scalar value.
pub open spec fn is_scalar(v: nat) -> bool {
    v <= 0x10FFFF && !(0xD800 <= v <= 0xDFFF)
}

// ---------------------------------------------------------------------------
// Error messages
// ---------------------------------------------------------------------------

/// `control character U+XXXX in <place>`, with the code point of `c` in at
/// least four upper-case hexadecimal digits.
pub open spec fn control_msg(c: char, place: Seq<char>) -> Seq<char> {
    "control character U+"@ + hex_min(c as nat, 4) + " in "@ + place
}

/// The message for a string that ends before its closing delimiter.
pub open spec fn unterminated_msg(basic: bool, multi_line: bool) -> Seq<char> {
    if basic {
        if multi_line {
            "unterminated multi-line basic string"@
        } else {
            "unterminated basic string"@
        }
    } else {
        if multi_line {
            "unterminated multi-line literal string"@
        } else {
            "unterminated literal string"@
        }
    }
}

/// The message for a sign before the base prefix `0<x>`.
pub open spec fn signed_prefix_msg(x: char) -> Seq<char> {
    if x == 'x' {
        "sign prefix not allowed on hex integer"@
    } else if x == 'o' {
        "sign prefix not allowed on octal integer"@
    } else {
        "sign prefix not allowed on binary integer"@
    }
}

/// The message for a missing `c` at position `i`: what stands there, or the
/// end of the input.
pub open spec fn expect_msg(s: Seq<char>, i: int, c: char) -> Seq<char> {
    if 0 <= i < s.len() {
        "expected '"@ + seq![c] + "', found '"@ + seq![s[i]] + "'"@
    } else {
        "expected '"@ + seq![c] + "', found EOF"@
    }
}

// ---------------------------------------------------------------------------
// Positions
// ---------------------------------------------------------------------------

/// The line (from 1) of position `p` of `s`: one more than the number of
/// `\n` before `p`.
pub open spec fn line_at(s: Seq<char>, p: int) -> int
    decreases p,
{
    if p <= 0 {
        1
    } else {
        line_at(s, p - 1) + if s[p - 1] == '\n' { 1int } else { 0int }
    }
}

/// The column (from 1) of position `p` of `s`: one more than the number of
/// characters since the last `\n` before `p`.
pub open spec fn col_at(s: Seq<char>, p: int) -> int
    decreases p,
{
    if p <= 0 {
        1
    } else if s[p - 1] == '\n' {
        1
    } else {
        col_at(s, p - 1) + 1
    }
}

pub proof fn lemma_line_col_bounds(s: Seq<char>, p: int)
    requires
        0 <= p,
    ensures
        1 <= line_at(s, p) <= p + 1,
        1 <= col_at(s, p) <= p + 1,
    decreases p,
{
    if p > 0 {
        lemma_line_col_bounds(s, p - 1);
    }
}

// ---------------------------------------------------------------------------
// Tokens
// ---------------------------------------------------------------------------

/// A token, with its text as a sequence of characters.
pub ghost enum TokenModel {
    Equals,
    Dot,
    Comma,
    Newline,
    Eof,
    LBracket,
    RBracket,
    DoubleLBracket,
    DoubleRBracket,
    LBrace,
    RBrace,
    BareKey(Seq<char>),
    BasicString(Seq<char>),
    LiteralString(Seq<char>),
    MlBasicString(Seq<char>),
    MlLiteralString(Seq<char>),
    Integer(i64),
    Float(Seq<char>),
    Boolean(bool),
    OffsetDateTime(OffsetDateTime),
    LocalDateTime(LocalDateTime),
    LocalDate(LocalDate),
    LocalTime(LocalTime),
}

/// What reading a token gives: the token and the position after it, or the
/// position at which the error is reported and its message.
pub ghost enum Lexed {
    Tok(TokenModel, int),
    Fail(int, Seq<char>),
}

/// The body of a string: its content and the position after the closing
/// delimiter; or an error at a position; or an unterminated string (reported
/// at the string's start).
pub ghost enum Body {
    Done(Seq<char>, int),
    Fail(int, Seq<char>),
    Unterminated,
}

pub open spec fn prepend(a: Seq<char>, b: Body) -> Body {
    match b {
        Body::Done(t, e) => Body::Done(a + t, e),
        other => other,
    }
}

pub proof fn lemma_prepend_prepend(a: Seq<char>, b: Seq<char>, x: Body)
    ensures
        prepend(a, prepend(b, x)) == prepend(a + b, x),
{
    if let Body::Done(t, e) = x {
        assert(a + (b + t) =~= (a + b) + t);
    }
}

/// A character from an escape sequence and the position after it, or an error.
pub ghost enum Esc {
    Char(char, int),
    Fail(int, Seq<char>),
}

/// A number read from digits, and the position after them; or an error.
pub ghost enum Num {
    Done(nat, int),
    Fail(int, Seq<char>),
}

// ---------------------------------------------------------------------------
// Escapes
// ---------------------------------------------------------------------------

/// `n` hexadecimal digits at `i`, added to `acc`; the character must be a
/// Unicode scalar value. Errors are reported where a digit is missing, or
/// after the digits for a value that is no scalar.
pub open spec fn unicode_scan(s: Seq<char>, i: int, n: nat, acc: nat) -> Esc
    decreases n,
{
    if n == 0 {
        if is_scalar(acc) {
            Esc::Char(acc as char, i)
        } else {
            Esc::Fail(i, "U+"@ + hex_min(acc, 4) + " is not a valid Unicode scalar value"@)
        }
    } else if 0 <= i < s.len() && is_hex_digit(s[i]) {
        unicode_scan(s, i + 1, (n - 1) as nat, acc * 16 + hex_value(s[i]))
    } else if 0 <= i < s.len() {
        Esc::Fail(i, "invalid hex digit '"@ + seq![s[i]] + "' in unicode escape"@)
    } else {
        Esc::Fail(i, "unexpected EOF in unicode escape"@)
    }
}

/// The escape whose letter is at `i` (just after a backslash).
pub open spec fn escape_at(s: Seq<char>, i: int) -> Esc {
    if !(0 <= i < s.len()) {
        Esc::Fail(i, "unexpected EOF in escape sequence"@)
    } else {
        let c = s[i];
        if c == 'b' {
            Esc::Char('\x08', i + 1)
        } else if c == 't' {
            Esc::Char('\t', i + 1)
        } else if c == 'n' {
            Esc::Char('\n', i + 1)
        } else if c == 'f' {
            Esc::Char('\x0C', i + 1)
        } else if c == 'r' {
            Esc::Char('\r', i + 1)
        } else if c == '"' {
            Esc::Char('"', i + 1)
        } else if c == '\\' {
            Esc::Char('\\', i + 1)
        } else if c == 'u' {
            unicode_scan(s, i + 1, 4, 0)
        } else if c == 'U' {
            unicode_scan(s, i + 1, 8, 0)
        } else {
            Esc::Fail(i, "invalid escape sequence '\\"@ + seq![c] + "'"@)
        }
    }
}

pub proof fn lemma_unicode_scan_end(s: Seq<char>, i: int, n: nat, acc: nat)
    requires
        0 <= i <= s.len(),
    ensures
        unicode_scan(s, i, n, acc) matches Esc::Char(_, j) ==> j == i + n && j <= s.len(),
    decreases n,
{
    if n > 0 && 0 <= i < s.len() && is_hex_digit(s[i]) {
        lemma_unicode_scan_end(s, i + 1, (n - 1) as nat, acc * 16 + hex_value(s[i]));
    }
}

pub proof fn lemma_escape_end(s: Seq<char>, i: int)
    requires
        0 <= i,
    ensures
        escape_at(s, i) matches Esc::Char(_, j) ==> i < j <= s.len(),
{
    if 0 <= i < s.len() {
        lemma_unicode_scan_end(s, i + 1, 4, 0);
        lemma_unicode_scan_end(s, i + 1, 8, 0);
    }
}

// ---------------------------------------------------------------------------
// Strings
// ---------------------------------------------------------------------------

/// The body of a basic string from `i` (after the opening quote).
pub open spec fn basic_body(s: Seq<char>, i: int) -> Body
    decreases s.len() - i,
{
    if !(0 <= i < s.len()) || s[i] == '\n' || s[i] == '\r' {
        Body::Unterminated
    } else if s[i] == '"' {
        Body::Done(Seq::empty(), i + 1)
    } else if s[i] == '\\' {
        match escape_at(s, i + 1) {
            Esc::Char(c, j) => {
                proof {
                    lemma_escape_end(s, i + 1);
                }
                prepend(seq![c], basic_body(s, j))
            },
            Esc::Fail(q, m) => Body::Fail(q, m),
        }
    } else if is_control(s[i]) {
        Body::Fail(i, control_msg(s[i], "basic string"@))
    } else {
        prepend(seq![s[i]], basic_body(s, i + 1))
    }
}

/// The body of a literal string from `i` (after the opening quote).
pub open spec fn literal_body(s: Seq<char>, i: int) -> Body
    decreases s.len() - i,
{
    if !(0 <= i < s.len()) || s[i] == '\n' || s[i] == '\r' {
        Body::Unterminated
    } else if s[i] == '\'' {
        Body::Done(Seq::empty(), i + 1)
    } else if is_control(s[i]) {
        Body::Fail(i, control_msg(s[i], "literal string"@))
    } else {
        prepend(seq![s[i]], literal_body(s, i + 1))
    }
}

/// The number of consecutive `q` characters at `i`, at most `m`.
pub open spec fn quote_run(s: Seq<char>, i: int, q: char, m: nat) -> nat
    decreases m,
{
    if m > 0 && 0 <= i < s.len() && s[i] == q {
        1 + quote_run(s, i + 1, q, (m - 1) as nat)
    } else {
        0
    }
}

/// `n` copies of `c`.
pub open spec fn repeat(c: char, n: nat) -> Seq<char> {
    Seq::new(n, |k: int| c)
}

/// A space, tab, LF or CR.
pub open spec fn is_ws_nl(c: char) -> bool {
    c == ' ' || c == '\t' || c == '\n' || c == '\r'
}

/// The first position from `i` that holds no space, tab, LF or CR.
pub open spec fn skip_ws_nl(s: Seq<char>, i: int) -> int
    decreases s.len() - i,
{
    if 0 <= i < s.len() && is_ws_nl(s[i]) {
        skip_ws_nl(s, i + 1)
    } else {
        i
    }
}

pub proof fn lemma_skip_ws_nl(s: Seq<char>, i: int)
    ensures
        skip_ws_nl(s, i) >= i,
        0 <= i <= s.len() ==> skip_ws_nl(s, i) <= s.len(),
    decreases s.len() - i,
{
    if 0 <= i < s.len() && is_ws_nl(s[i]) {
        lemma_skip_ws_nl(s, i + 1);
    }
}

pub proof fn lemma_quote_run(s: Seq<char>, i: int, q: char, m: nat)
    ensures
        quote_run(s, i, q, m) <= m,
        0 <= i ==> i + quote_run(s, i, q, m) <= s.len() || quote_run(s, i, q, m) == 0,
        forall|k: int| 0 <= k < quote_run(s, i, q, m) ==> 0 <= i + k < s.len() && #[trigger] s[i + k] == q,
    decreases m,
{
    if m > 0 && 0 <= i < s.len() && s[i] == q {
        lemma_quote_run(s, i + 1, q, (m - 1) as nat);
        let r = quote_run(s, i + 1, q, (m - 1) as nat);
        assert forall|k: int| 0 <= k < 1 + r implies 0 <= i + k < s.len() && #[trigger] s[i + k] == q by {
            if k > 0 {
                assert(0 <= (i + 1) + (k - 1) < s.len() && s[(i + 1) + (k - 1)] == q);
            }
        }
    }
}

/// The body of a multi-line basic string from `i` (after the opening
/// delimiter and the newline that is trimmed).
pub open spec fn ml_basic_body(s: Seq<char>, i: int) -> Body
    decreases s.len() - i,
{
    if !(0 <= i < s.len()) {
        Body::Unterminated
    } else if s[i] == '"' {
        let k = quote_run(s, i, '"', 5);
        proof {
            lemma_quote_run(s, i, '"', 5);
        }
        if k >= 3 {
            Body::Done(repeat('"', (k - 3) as nat), i + k)
        } else {
            prepend(repeat('"', k), ml_basic_body(s, i + k))
        }
    } else if s[i] == '\\' {
        if i + 1 < s.len() && is_ws_nl(s[i + 1]) {
            proof {
                lemma_skip_ws_nl(s, i + 1);
            }
            ml_basic_body(s, skip_ws_nl(s, i + 1))
        } else {
            match escape_at(s, i + 1) {
                Esc::Char(c, j) => {
                    proof {
                        lemma_escape_end(s, i + 1);
                    }
                    prepend(seq![c], ml_basic_body(s, j))
                },
                Esc::Fail(q, m) => Body::Fail(q, m),
            }
        }
    } else if is_ml_control(s[i]) {
        Body::Fail(i, control_msg(s[i], "multi-line basic string"@))
    } else {
        prepend(seq![s[i]], ml_basic_body(s, i + 1))
    }
}

/// The body of a multi-line literal string from `i` (after the opening
/// delimiter and the newline that is trimmed).
pub open spec fn ml_literal_body(s: Seq<char>, i: int) -> Body
    decreases s.len() - i,
{
    if !(0 <= i < s.len()) {
        Body::Unterminated
    } else if s[i] == '\'' {
        let k = quote_run(s, i, '\'', 5);
        proof {
            lemma_quote_run(s, i, '\'', 5);
        }
        if k >= 3 {
            Body::Done(repeat('\'', (k - 3) as nat), i + k)
        } else {
            prepend(repeat('\'', k), ml_literal_body(s, i + k))
        }
    } else if is_ml_control(s[i]) {
        Body::Fail(i, control_msg(s[i], "multi-line literal string"@))
    } else {
        prepend(seq![s[i]], ml_literal_body(s, i + 1))
    }
}

/// The position after an opening multi-line delimiter at `p`, with one
/// newline (LF or CRLF) right after it trimmed.
pub open spec fn ml_content_start(s: Seq<char>, p: int) -> int {
    let q = p + 3;
    if 0 <= q < s.len() && s[q] == '\n' {
        q + 1
    } else if 0 <= q && q + 1 < s.len() && s[q] == '\r' && s[q + 1] == '\n' {
        q + 2
    } else {
        q
    }
}

/// The string token whose opening quote is at `p`.
pub open spec fn string_at(s: Seq<char>, p: int) -> Lexed {
    let triple = p + 3 <= s.len() && s[p + 1] == s[p] && s[p + 2] == s[p];
    let body = if s[p] == '"' {
        if triple {
            ml_basic_body(s, ml_content_start(s, p))
        } else {
            basic_body(s, p + 1)
        }
    } else {
        if triple {
            ml_literal_body(s, ml_content_start(s, p))
        } else {
            literal_body(s, p + 1)
        }
    };
    match body {
        Body::Done(t, e) => Lexed::Tok(
            if s[p] == '"' {
                if triple {
                    TokenModel::MlBasicString(t)
                } else {
                    TokenModel::BasicString(t)
                }
            } else {
                if triple {
                    TokenModel::MlLiteralString(t)
                } else {
                    TokenModel::LiteralString(t)
                }
            },
            e,
        ),
        Body::Fail(q, m) => Lexed::Fail(q, m),
        Body::Unterminated => Lexed::Fail(p, unterminated_msg(s[p] == '"', triple)),
    }
}

// ---------------------------------------------------------------------------
// Numbers
// ---------------------------------------------------------------------------

pub open spec fn is_base_digit(c: char, base: nat) -> bool {
    if base == 16 {
        is_hex_digit(c)
    } else if base == 8 {
        48 <= (c as u32) <= 55
    } else {
        48 <= (c as u32) <= 49
    }
}

/// Digits of `base` (with single underscores between them) from `i`, added to
/// `acc`. An overflow of `u64` is reported at the token's start `p`.
pub open spec fn based_scan(s: Seq<char>, i: int, base: nat, acc: nat, prev_us: bool, first: bool, p: int) -> Num
    decreases s.len() - i,
{
    if 0 <= i < s.len() && s[i] == '_' {
        if first || prev_us {
            Num::Fail(i, "invalid underscore placement in integer"@)
        } else {
            based_scan(s, i + 1, base, acc, true, first, p)
        }
    } else if 0 <= i < s.len() && is_base_digit(s[i], base) {
        let v = acc * base + hex_value(s[i]);
        if v > u64::MAX {
            Num::Fail(p, "integer overflow"@)
        } else {
            based_scan(s, i + 1, base, v, false, false, p)
        }
    } else if prev_us {
        Num::Fail(i, "integer cannot end with underscore"@)
    } else {
        Num::Done(acc, i)
    }
}

/// The integer part of a decimal number.
pub ghost enum DecPart {
    Done { end: int, value: nat, count: nat, leading_zero: bool },
    Fail(int, Seq<char>),
}

/// Decimal digits (with single underscores between them) from `i`.
pub open spec fn dec_scan(s: Seq<char>, i: int, acc: nat, count: nat, lead0: bool, prev_us: bool, first: bool) -> DecPart
    decreases s.len() - i,
{
    if 0 <= i < s.len() && s[i] == '_' {
        if first || prev_us {
            DecPart::Fail(i, "invalid underscore placement in number"@)
        } else {
            dec_scan(s, i + 1, acc, count, lead0, true, first)
        }
    } else if 0 <= i < s.len() && is_digit(s[i]) {
        dec_scan(s, i + 1, acc * 10 + hex_value(s[i]), count + 1, lead0 || (first && s[i] == '0'), false, false)
    } else if prev_us {
        DecPart::Fail(i, "number cannot end with underscore"@)
    } else {
        DecPart::Done { end: i, value: acc, count, leading_zero: lead0 }
    }
}

/// Digits with single underscores between them from `i` (the first is known
/// to be a digit), in the fraction of a float or, when `exp`, in its
/// exponent; the position after them, or an error.
pub open spec fn digit_run_us(s: Seq<char>, i: int, prev_us: bool, exp: bool) -> Num
    decreases s.len() - i,
{
    if 0 <= i < s.len() && s[i] == '_' {
        if prev_us {
            Num::Fail(i, if exp { "adjacent underscores in float exponent"@ } else { "adjacent underscores in float"@ })
        } else {
            digit_run_us(s, i + 1, true, exp)
        }
    } else if 0 <= i < s.len() && is_digit(s[i]) {
        digit_run_us(s, i + 1, false, exp)
    } else if prev_us {
        Num::Fail(i, if exp { "float exponent cannot end with underscore"@ } else { "float cannot end with underscore"@ })
    } else {
        Num::Done(0, i)
    }
}

/// The exponent part of a float from `i` (if there is one); the position
/// after the float.
pub open spec fn exponent_end(s: Seq<char>, i: int) -> Num {
    if 0 <= i < s.len() && (s[i] == 'e' || s[i] == 'E') {
        let j = if i + 1 < s.len() && (s[i + 1] == '+' || s[i + 1] == '-') {
            i + 2
        } else {
            i + 1
        };
        if 0 <= j < s.len() && is_digit(s[j]) {
            digit_run_us(s, j, false, true)
        } else {
            Num::Fail(j, "expected digit in float exponent"@)
        }
    } else {
        Num::Done(0, i)
    }
}

/// The end of a float whose integer digits end at `i`.
pub open spec fn float_end(s: Seq<char>, i: int) -> Num {
    if 0 <= i < s.len() && s[i] == '.' {
        if i + 1 < s.len() && is_digit(s[i + 1]) {
            match digit_run_us(s, i + 1, false, false) {
                Num::Done(_, k) => exponent_end(s, k),
                Num::Fail(q, m) => Num::Fail(q, m),
            }
        } else {
            Num::Fail(i + 1, "expected digit after decimal point in float"@)
        }
    } else {
        exponent_end(s, i)
    }
}

/// `t` without its underscores.
pub open spec fn strip_underscores(t: Seq<char>) -> Seq<char>
    decreases t.len(),
{
    if t.len() == 0 {
        t
    } else if t.last() == '_' {
        strip_underscores(t.drop_last())
    } else {
        strip_underscores(t.drop_last()).push(t.last())
    }
}

/// An integer in `base` whose digits start at `i` (after the prefix); `p`
/// is the token's start.
pub open spec fn based_at(s: Seq<char>, i: int, base: nat, p: int) -> Lexed {
    if !(0 <= i < s.len() && is_base_digit(s[i], base)) {
        Lexed::Fail(p, "expected digit after base prefix"@)
    } else {
        match based_scan(s, i, base, 0, false, true, p) {
            Num::Done(v, e) => Lexed::Tok(TokenModel::Integer((v as u64) as i64), e),
            Num::Fail(f, m) => Lexed::Fail(f, m),
        }
    }
}

/// The float whose integer digits are `s[q..end]`, negative when `neg`.
pub open spec fn float_at(s: Seq<char>, q: int, end: int, neg: bool) -> Lexed {
    match float_end(s, end) {
        Num::Done(_, e) => Lexed::Tok(
            TokenModel::Float((if neg { seq!['-'] } else { Seq::empty() }) + strip_underscores(s.subrange(q, e))),
            e,
        ),
        Num::Fail(f, m) => Lexed::Fail(f, m),
    }
}

/// A decimal integer or a float whose digits start at `q`; `p` is the
/// token's start.
pub open spec fn decimal_at(s: Seq<char>, q: int, p: int, neg: bool, key_mode: bool) -> Lexed {
    match dec_scan(s, q, 0, 0, false, false, true) {
        DecPart::Fail(f, m) => Lexed::Fail(f, m),
        DecPart::Done { end, value, count, leading_zero } => {
            if count == 0 {
                Lexed::Fail(p, "expected digit"@)
            } else if !key_mode && 0 <= end < s.len() && (s[end] == '.' || s[end] == 'e' || s[end] == 'E') {
                float_at(s, q, end, neg)
            } else if leading_zero && count > 1 {
                Lexed::Fail(p, "leading zeros not allowed in integer"@)
            } else if neg {
                if value > 0x8000_0000_0000_0000 {
                    Lexed::Fail(p, "integer overflow"@)
                } else {
                    Lexed::Tok(TokenModel::Integer((0 - value) as i64), end)
                }
            } else if value > i64::MAX {
                Lexed::Fail(p, "integer overflow"@)
            } else {
                Lexed::Tok(TokenModel::Integer(value as i64), end)
            }
        },
    }
}

/// The number (integer or float) whose text starts at `p`.
pub open spec fn number_at(s: Seq<char>, p: int, key_mode: bool) -> Lexed {
    let signed = s[p] == '+' || s[p] == '-';
    let q = if signed { p + 1 } else { p };
    if 0 <= q && q + 1 < s.len() && s[q] == '0' && (s[q + 1] == 'x' || s[q + 1] == 'o' || s[q + 1] == 'b') {
        if signed {
            Lexed::Fail(p, signed_prefix_msg(s[q + 1]))
        } else {
            based_at(s, q + 2, if s[q + 1] == 'x' { 16 } else if s[q + 1] == 'o' { 8 } else { 2 }, p)
        }
    } else {
        decimal_at(s, q, p, s[p] == '-', key_mode)
    }
}

/// The token at `p` when it starts with a sign.
pub open spec fn signed_at(s: Seq<char>, p: int, key_mode: bool) -> Lexed {
    if p + 4 <= s.len() && s[p + 1] == 'i' && s[p + 2] == 'n' && s[p + 3] == 'f' {
        Lexed::Tok(TokenModel::Float(if s[p] == '+' { seq!['i', 'n', 'f'] } else { seq!['-', 'i', 'n', 'f'] }), p + 4)
    } else if p + 4 <= s.len() && s[p + 1] == 'n' && s[p + 2] == 'a' && s[p + 3] == 'n' {
        Lexed::Tok(TokenModel::Float(seq!['n', 'a', 'n']), p + 4)
    } else {
        number_at(s, p, key_mode)
    }
}

// ---------------------------------------------------------------------------
// Dates and times
// ---------------------------------------------------------------------------

/// `n` decimal digits at `i`, added to `acc`; an error where one is missing
/// (its message is given by the caller, which knows what the digits are for).
pub open spec fn digits_scan(s: Seq<char>, i: int, n: nat, acc: nat) -> Num
    decreases n,
{
    if n == 0 {
        Num::Done(acc, i)
    } else if 0 <= i < s.len() && is_digit(s[i]) {
        digits_scan(s, i + 1, (n - 1) as nat, acc * 10 + hex_value(s[i]))
    } else {
        Num::Fail(i, Seq::empty())
    }
}

/// `Fail` of `x` with its message replaced by `m`.
pub open spec fn with_msg(x: Num, m: Seq<char>) -> Num {
    match x {
        Num::Fail(q, _) => Num::Fail(q, m),
        other => other,
    }
}

/// The number of decimal digits at `i`.
pub open spec fn digit_count(s: Seq<char>, i: int) -> nat
    decreases s.len() - i,
{
    if 0 <= i < s.len() && is_digit(s[i]) {
        1 + digit_count(s, i + 1)
    } else {
        0
    }
}

/// Ten to the power `k`.
pub open spec fn pow10(k: nat) -> nat
    decreases k,
{
    if k == 0 {
        1
    } else {
        10 * pow10((k - 1) as nat)
    }
}

/// A time and the position after it, or an error.
pub ghost enum TimeScan {
    Done(LocalTime, int),
    Fail(int, Seq<char>),
}

/// The fraction of a second after a `.` at `i`: nanoseconds from the first
/// nine digits (further digits are dropped, not rounded).
pub open spec fn nanos_of(s: Seq<char>, i: int, k: nat) -> nat {
    let n: nat = if k < 9 { k } else { 9 };
    match digits_scan(s, i, n, 0) {
        Num::Done(v, _) => v * pow10((9 - n) as nat),
        Num::Fail(..) => 0,
    }
}

/// The time `HH:MM:SS[.fraction]` at `i`; range errors are reported at `p`.
pub open spec fn time_scan(s: Seq<char>, i: int, p: int) -> TimeScan {
    match with_msg(digits_scan(s, i, 2, 0), "expected 2 digits for hour"@) {
        Num::Fail(q, e) => TimeScan::Fail(q, e),
        Num::Done(h, i1) => if !(0 <= i1 < s.len() && s[i1] == ':') {
            TimeScan::Fail(i1, expect_msg(s, i1, ':'))
        } else {
            match with_msg(digits_scan(s, i1 + 1, 2, 0), "expected 2 digits for minute"@) {
                Num::Fail(q, e) => TimeScan::Fail(q, e),
                Num::Done(m, i2) => if !(0 <= i2 < s.len() && s[i2] == ':') {
                    TimeScan::Fail(i2, expect_msg(s, i2, ':'))
                } else {
                    match with_msg(digits_scan(s, i2 + 1, 2, 0), "expected 2 digits for second"@) {
                        Num::Fail(q, e) => TimeScan::Fail(q, e),
                        Num::Done(sec, i3) => if h > 23 {
                            TimeScan::Fail(p, "invalid hour "@ + nat_digits(h))
                        } else if m > 59 {
                            TimeScan::Fail(p, "invalid minute "@ + nat_digits(m))
                        } else if sec > 60 {
                            TimeScan::Fail(p, "invalid second "@ + nat_digits(sec))
                        } else if 0 <= i3 < s.len() && s[i3] == '.' {
                            let k = digit_count(s, i3 + 1);
                            if k == 0 {
                                TimeScan::Fail(i3 + 1, "expected digits after decimal point in time"@)
                            } else {
                                TimeScan::Done(
                                    LocalTime {
                                        hour: h as u8,
                                        minute: m as u8,
                                        second: sec as u8,
                                        nanosecond: nanos_of(s, i3 + 1, k) as u32,
                                    },
                                    i3 + 1 + k,
                                )
                            }
                        } else {
                            TimeScan::Done(
                                LocalTime { hour: h as u8, minute: m as u8, second: sec as u8, nanosecond: 0 },
                                i3,
                            )
                        },
                    }
                },
            }
        },
    }
}

/// An offset and the position after it, or an error.
pub ghost enum OffsetScan {
    Done(UtcOffset, int),
    Fail(int, Seq<char>),
}

/// The offset `+HH:MM` or `-HH:MM` at `i`; range errors are reported at `p`.
pub open spec fn offset_scan(s: Seq<char>, i: int, p: int) -> OffsetScan {
    match with_msg(digits_scan(s, i + 1, 2, 0), "expected 2 digits for offset hours"@) {
        Num::Fail(q, e) => OffsetScan::Fail(q, e),
        Num::Done(h, i1) => if !(0 <= i1 < s.len() && s[i1] == ':') {
            OffsetScan::Fail(i1, expect_msg(s, i1, ':'))
        } else {
            match with_msg(digits_scan(s, i1 + 1, 2, 0), "expected 2 digits for offset minutes"@) {
                Num::Fail(q, e) => OffsetScan::Fail(q, e),
                Num::Done(m, i2) => if h > 23 || m > 59 {
                    OffsetScan::Fail(p, "invalid UTC offset "@ + nat_digits(h) + ":"@ + nat_digits(m))
                } else {
                    let total = h * 60 + m;
                    OffsetScan::Done(UtcOffset::Minutes(if s[i] == '-' { (0 - total) as i16 } else { total as i16 }), i2)
                },
            }
        },
    }
}

/// The date-time that follows a date and its separator, the time starting at `i`.
pub open spec fn after_date(s: Seq<char>, date: LocalDate, i: int, p: int) -> Lexed {
    match time_scan(s, i, p) {
        TimeScan::Fail(q, m) => Lexed::Fail(q, m),
        TimeScan::Done(time, e) => if 0 <= e < s.len() && (s[e] == 'Z' || s[e] == 'z') {
            Lexed::Tok(TokenModel::OffsetDateTime(OffsetDateTime { date, time, offset: UtcOffset::Z }), e + 1)
        } else if 0 <= e < s.len() && (s[e] == '+' || s[e] == '-') {
            match offset_scan(s, e, p) {
                OffsetScan::Fail(q, m) => Lexed::Fail(q, m),
                OffsetScan::Done(offset, e2) => Lexed::Tok(
                    TokenModel::OffsetDateTime(OffsetDateTime { date, time, offset }),
                    e2,
                ),
            }
        } else {
            Lexed::Tok(TokenModel::LocalDateTime(LocalDateTime { date, time }), e)
        },
    }
}

/// The date or date-time that starts at `p`.
pub open spec fn datetime_at(s: Seq<char>, p: int) -> Lexed {
    match with_msg(digits_scan(s, p, 4, 0), "expected 4 digits for year"@) {
        Num::Fail(q, m) => Lexed::Fail(q, m),
        Num::Done(y, i1) => if !(0 <= i1 < s.len() && s[i1] == '-') {
            Lexed::Fail(i1, expect_msg(s, i1, '-'))
        } else {
            match with_msg(digits_scan(s, i1 + 1, 2, 0), "expected 2 digits for month"@) {
                Num::Fail(q, m) => Lexed::Fail(q, m),
                Num::Done(mo, i2) => if !(0 <= i2 < s.len() && s[i2] == '-') {
                    Lexed::Fail(i2, expect_msg(s, i2, '-'))
                } else {
                    match with_msg(digits_scan(s, i2 + 1, 2, 0), "expected 2 digits for day"@) {
                        Num::Fail(q, m) => Lexed::Fail(q, m),
                        Num::Done(d, i3) => if mo < 1 || mo > 12 {
                            Lexed::Fail(p, "invalid month "@ + nat_digits(mo))
                        } else if d < 1 || d > 31 {
                            Lexed::Fail(p, "invalid day "@ + nat_digits(d))
                        } else {
                            let date = LocalDate { year: y as u16, month: mo as u8, day: d as u8 };
                            if 0 <= i3 < s.len() && (s[i3] == 'T' || s[i3] == 't') {
                                after_date(s, date, i3 + 1, p)
                            } else if 0 <= i3 && i3 + 1 < s.len() && s[i3] == ' ' && is_digit(s[i3 + 1]) {
                                after_date(s, date, i3 + 1, p)
                            } else {
                                Lexed::Tok(TokenModel::LocalDate(date), i3)
                            }
                        },
                    }
                },
            }
        },
    }
}

/// Whether the text at `p` looks like a date: `DDDD-DD`.
pub open spec fn date_like(s: Seq<char>, p: int) -> bool {
    0 <= p && p + 7 <= s.len() && is_digit(s[p]) && is_digit(s[p + 1]) && is_digit(s[p + 2])
        && is_digit(s[p + 3]) && s[p + 4] == '-' && is_digit(s[p + 5]) && is_digit(s[p + 6])
}

/// Whether the text at `p` looks like a time: `DD:DD`.
pub open spec fn time_like(s: Seq<char>, p: int) -> bool {
    0 <= p && p + 5 <= s.len() && is_digit(s[p]) && is_digit(s[p + 1]) && s[p + 2] == ':'
        && is_digit(s[p + 3]) && is_digit(s[p + 4])
}

/// The token at `p` when it starts with a digit.
pub open spec fn digit_start_at(s: Seq<char>, p: int, key_mode: bool) -> Lexed {
    if date_like(s, p) {
        datetime_at(s, p)
    } else if time_like(s, p) {
        match time_scan(s, p, p) {
            TimeScan::Done(t, e) => Lexed::Tok(TokenModel::LocalTime(t), e),
            TimeScan::Fail(q, m) => Lexed::Fail(q, m),
        }
    } else {
        number_at(s, p, key_mode)
    }
}

// ---------------------------------------------------------------------------
// Keys, keywords and whole tokens
// ---------------------------------------------------------------------------

/// The first position from `i` that holds no bare-key character.
pub open spec fn bare_end(s: Seq<char>, i: int) -> int
    decreases s.len() - i,
{
    if 0 <= i < s.len() && bare_key_char(s[i]) {
        bare_end(s, i + 1)
    } else {
        i
    }
}

/// The bare key at `p`.
pub open spec fn bare_key_at(s: Seq<char>, p: int) -> Lexed {
    let e = bare_end(s, p);
    if e == p {
        Lexed::Fail(p, "expected bare key character"@)
    } else {
        Lexed::Tok(TokenModel::BareKey(s.subrange(p, e)), e)
    }
}

/// Whether the keyword `w` stands at `p`, not followed by a word character.
pub open spec fn keyword_at(s: Seq<char>, p: int, w: Seq<char>) -> bool {
    0 <= p && p + w.len() <= s.len() && s.subrange(p, p + w.len()) == w
        && !(p + w.len() < s.len() && is_word_char(s[p + w.len()]))
}

/// What follows trivia (spaces, tabs, comments): the position of the next
/// token, or the position of a comment holding a control character and the
/// message for it.
pub ghost enum Trivia {
    Next(int),
    Fail(int, Seq<char>),
}

pub open spec fn skip_trivia(s: Seq<char>, i: int) -> Trivia
    decreases s.len() - i, 0int,
{
    if 0 <= i < s.len() && (s[i] == ' ' || s[i] == '\t') {
        skip_trivia(s, i + 1)
    } else if 0 <= i < s.len() && s[i] == '#' {
        comment_scan(s, i, i + 1)
    } else {
        Trivia::Next(i)
    }
}

pub open spec fn comment_scan(s: Seq<char>, start: int, i: int) -> Trivia
    decreases s.len() - i, 1int,
{
    if !(0 <= i < s.len()) || s[i] == '\n' || s[i] == '\r' {
        skip_trivia(s, i)
    } else if is_control(s[i]) {
        Trivia::Fail(start, control_msg(s[i], "comment"@))
    } else {
        comment_scan(s, start, i + 1)
    }
}

/// The token whose first character is at `p` (after trivia). Where a key
/// is expected, `true`, `false`, `inf` and `nan` are read as bare keys.
pub open spec fn token_at(s: Seq<char>, p: int, key_mode: bool) -> Lexed {
    if !(0 <= p < s.len()) {
        Lexed::Tok(TokenModel::Eof, p)
    } else {
        let c = s[p];
        if c == '\n' {
            Lexed::Tok(TokenModel::Newline, p + 1)
        } else if c == '\r' {
            Lexed::Tok(TokenModel::Newline, if p + 1 < s.len() && s[p + 1] == '\n' { p + 2 } else { p + 1 })
        } else if c == '=' {
            Lexed::Tok(TokenModel::Equals, p + 1)
        } else if c == '.' {
            Lexed::Tok(TokenModel::Dot, p + 1)
        } else if c == ',' {
            Lexed::Tok(TokenModel::Comma, p + 1)
        } else if c == '{' {
            Lexed::Tok(TokenModel::LBrace, p + 1)
        } else if c == '}' {
            Lexed::Tok(TokenModel::RBrace, p + 1)
        } else if c == '[' {
            if p + 1 < s.len() && s[p + 1] == '[' {
                Lexed::Tok(TokenModel::DoubleLBracket, p + 2)
            } else {
                Lexed::Tok(TokenModel::LBracket, p + 1)
            }
        } else if c == ']' {
            if p + 1 < s.len() && s[p + 1] == ']' {
                Lexed::Tok(TokenModel::DoubleRBracket, p + 2)
            } else {
                Lexed::Tok(TokenModel::RBracket, p + 1)
            }
        } else if c == '"' || c == '\'' {
            string_at(s, p)
        } else if !key_mode && c == 't' && keyword_at(s, p, seq!['t', 'r', 'u', 'e']) {
            Lexed::Tok(TokenModel::Boolean(true), p + 4)
        } else if !key_mode && c == 'f' && keyword_at(s, p, seq!['f', 'a', 'l', 's', 'e']) {
            Lexed::Tok(TokenModel::Boolean(false), p + 5)
        } else if !key_mode && c == 'i' && keyword_at(s, p, seq!['i', 'n', 'f']) {
            Lexed::Tok(TokenModel::Float(seq!['i', 'n', 'f']), p + 3)
        } else if !key_mode && c == 'n' && keyword_at(s, p, seq!['n', 'a', 'n']) {
            Lexed::Tok(TokenModel::Float(seq!['n', 'a', 'n']), p + 3)
        } else if c == '+' || c == '-' {
            signed_at(s, p, key_mode)
        } else if is_digit(c) {
            digit_start_at(s, p, key_mode)
        } else if bare_key_char(c) {
            bare_key_at(s, p)
        } else {
            Lexed::Fail(p, "unexpected character "@ + char_debug(c))
        }
    }
}

/// The next token from position `i`: trivia is skipped first.
#[verifier::opaque]
pub open spec fn lex_at(s: Seq<char>, i: int, key_mode: bool) -> Lexed {
    match skip_trivia(s, i) {
        Trivia::Next(p) => token_at(s, p, key_mode),
        Trivia::Fail(q, m) => Lexed::Fail(q, m),
    }
}

} // verus!
