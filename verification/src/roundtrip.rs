//! What the printer writes, the lexer reads back: laws that join the
//! layout of printed text to the lexical grammar.

use vstd::prelude::*;
use crate::grammar::{
    Body, Esc, Lexed, TokenModel, bare_end, bare_key_char, basic_body, escape_at, hex_value, is_control, is_digit,
    is_hex_digit, is_scalar, is_word_char, keyword_at, lex_at, literal_body, skip_trivia, string_at, token_at, unicode_scan, Trivia,
};
use crate::grammar::{
    Num, date_like, dec_scan, digit_count, digit_run_us, digit_start_at, digits_scan, exponent_end, float_at, float_end, number_at,
    pow10, signed_at, strip_underscores, time_like, time_scan,
};
use crate::layout::{
    aots_text, date_text, document_text, local_datetime_text, offset_datetime_text, offset_size, offset_text,
    time_text, trim_zeros, escape_char, escaped, inline_text, is_bare, is_inline, items_text, key_text, pairs_text,
    quoted_text, scalars_text, subtables_text,
};
use crate::lexer::{LexState, weight};
use crate::syntax::{
    array_spec, document_spec, expect_tok, inline_pairs, key_of, key_spec, newline_or_eof, next_tok,
    no_growth, parse_spec, peek_tok, shrinks, skip_newlines, start, value_spec, with_key_mode,
};
use crate::table::{find_key, lemma_find_key};
use crate::tracker::{NodeModel, TrackedModel, insert_spec, nav, tree_model, walk};
use crate::table::distinct_keys;
use crate::value::{LocalDate, LocalDateTime, LocalTime, OffsetDateTime, UtcOffset, ValueModel};
use crate::text::{decimal_digits, digit_char, hex_char, hex_digits, nat_digits, padded_digits};

verus! {

/// Escaping a sequence is escaping its first character, then the rest.
proof fn lemma_escaped_front(c: char, x: Seq<char>)
    ensures
        escaped(seq![c] + x) == escape_char(c) + escaped(x),
    decreases x.len(),
{
    let y = seq![c] + x;
    if x.len() == 0 {
        assert(y =~= seq![c]);
        assert(y.drop_last() =~= Seq::<char>::empty());
        assert(escaped(Seq::<char>::empty()) == Seq::<char>::empty());
        assert(escaped(y) =~= escape_char(c) + escaped(x));
    } else {
        assert(y.drop_last() =~= seq![c] + x.drop_last());
        assert(y.last() == x.last());
        lemma_escaped_front(c, x.drop_last());
        assert(escaped(y) =~= escape_char(c) + escaped(x));
    }
}

/// A hexadecimal digit, read back.
proof fn lemma_hex_char(d: int)
    requires
        0 <= d < 16,
    ensures
        is_hex_digit(hex_char(d)),
        hex_value(hex_char(d)) == d,
{
    if d < 10 {
        assert(((48 + d) as char) as u32 == 48 + d);
    } else {
        assert(((55 + d) as char) as u32 == 55 + d);
    }
}

/// The four hexadecimal digits of a code below 128, read back by a
/// `\u` escape.
proof fn lemma_unicode_small(t: Seq<char>, i: int, c: char)
    requires
        (c as u32) < 128,
        0 <= i,
        i + 4 <= t.len(),
        t.subrange(i, i + 4) == hex_digits(c as u32 as nat, 4),
    ensures
        unicode_scan(t, i, 4, 0) == Esc::Char(c, i + 4),
{
    reveal_with_fuel(hex_digits, 5);
    let v = c as u32 as nat;
    let d1 = v / 16;
    let d0 = v % 16;
    assert(v / 16 / 16 == 0);
    assert(hex_digits(0, 0) =~= Seq::<char>::empty());
    assert(hex_digits(0, 1) =~= seq![hex_char(0)]);
    assert(hex_digits(0, 2) =~= seq![hex_char(0), hex_char(0)]);
    assert(hex_digits(v / 16, 3) =~= seq![hex_char(0), hex_char(0), hex_char(d1 as int)]);
    assert(hex_digits(v, 4) =~= seq![hex_char(0), hex_char(0), hex_char(d1 as int), hex_char(d0 as int)]);
    assert(t[i] == hex_char(0));
    assert(t[i + 1] == hex_char(0));
    assert(t[i + 2] == hex_char(d1 as int));
    assert(t[i + 3] == hex_char(d0 as int));
    lemma_hex_char(0);
    lemma_hex_char(d1 as int);
    lemma_hex_char(d0 as int);
    assert(d1 * 16 + d0 == v);
    assert(is_scalar(v));
    assert((v as char) == c);
    assert(unicode_scan(t, i + 4, 0, v) == Esc::Char(c, i + 4));
    assert(unicode_scan(t, i + 3, 1, d1) == unicode_scan(t, i + 4, 0, d1 * 16 + d0));
    assert(unicode_scan(t, i + 2, 2, 0) == unicode_scan(t, i + 3, 1, 0 * 16 + d1));
    assert(unicode_scan(t, i + 1, 3, 0) == unicode_scan(t, i + 2, 2, 0 * 16 + 0));
    assert(unicode_scan(t, i, 4, 0) == unicode_scan(t, i + 1, 3, 0 * 16 + 0));
}

/// `hex_digits` has as many digits as asked for.
proof fn lemma_hex_digits_len(n: nat, w: nat)
    ensures
        hex_digits(n, w).len() == w,
    decreases w,
{
    if w > 0 {
        lemma_hex_digits_len(n / 16, (w - 1) as nat);
    }
}

/// A character as the printer escapes it is read back as that character.
proof fn lemma_body_escape_char(t: Seq<char>, i: int, c: char)
    requires
        0 <= i,
        i + escape_char(c).len() <= t.len(),
        t.subrange(i, i + escape_char(c).len()) == escape_char(c),
    ensures
        basic_body(t, i) == crate::grammar::prepend(seq![c], basic_body(t, i + escape_char(c).len())),
{
    let e = escape_char(c);
    let u = c as u32;
    lemma_hex_digits_len(u as nat, 4);
    assert(t[i] == e[0]);
    if c == '\x08' || c == '\t' || c == '\n' || c == '\x0C' || c == '\r' || c == '"' || c == '\\' {
        assert(t[i + 1] == e[1]);
        assert(escape_at(t, i + 1) == Esc::Char(c, i + 2));
    } else if u < 0x20 || u == 0x7F {
        assert(t[i + 1] == e[1]);
        assert(t.subrange(i + 2, i + 6) =~= e.subrange(2, 6));
        assert(e.subrange(2, 6) =~= hex_digits(u as nat, 4));
        lemma_unicode_small(t, i + 2, c);
        assert(escape_at(t, i + 1) == Esc::Char(c, i + 6));
    } else {
        assert(!is_control(c));
    }
}

/// The escaped text of `x`, then a `"`, is read back as a basic string body
/// holding `x`.
proof fn lemma_body_escaped(t: Seq<char>, i: int, x: Seq<char>)
    requires
        0 <= i,
        i + escaped(x).len() < t.len(),
        t.subrange(i, i + escaped(x).len()) == escaped(x),
        t[i + escaped(x).len()] == '"',
    ensures
        basic_body(t, i) == Body::Done(x, i + escaped(x).len() + 1),
    decreases x.len(),
{
    if x.len() == 0 {
        assert(escaped(x) == Seq::<char>::empty());
        assert(x =~= Seq::<char>::empty());
    } else {
        let c = x[0];
        let rest = x.drop_first();
        assert(x =~= seq![c] + rest);
        lemma_escaped_front(c, rest);
        let e = escape_char(c);
        let k = e.len() as int;
        assert(t.subrange(i, i + k) =~= escaped(x).subrange(0, k));
        assert(escaped(x).subrange(0, k) =~= e);
        lemma_body_escape_char(t, i, c);
        assert(t.subrange(i + k, i + k + escaped(rest).len()) =~= escaped(x).subrange(k, escaped(x).len() as int));
        assert(escaped(x).subrange(k, escaped(x).len() as int) =~= escaped(rest));
        lemma_body_escaped(t, i + k, rest);
        assert(seq![c] + rest =~= x);
    }
}

/// The first character of an escaped character is never a `"`.
proof fn lemma_escape_char_start(c: char)
    ensures
        escape_char(c).len() >= 1,
        escape_char(c)[0] != '"',
{
}

/// A string as the printer writes it, at position `p` of `s` and not
/// followed by a `"`, is read as a basic string token holding it.
pub(crate) proof fn lemma_lex_string(s: Seq<char>, p: int, x: Seq<char>, key_mode: bool)
    requires
        0 <= p,
        p + quoted_text(x).len() <= s.len(),
        s.subrange(p, p + quoted_text(x).len()) == quoted_text(x),
        p + quoted_text(x).len() == s.len() || s[p + quoted_text(x).len()] != '"',
    ensures
        lex_at(s, p, key_mode) == Lexed::Tok(TokenModel::BasicString(x), p + quoted_text(x).len()),
{
    reveal(lex_at);
    let q = quoted_text(x);
    let n = escaped(x).len() as int;
    assert(q =~= seq!['"'] + escaped(x) + seq!['"']);
    assert(s[p] == q[0]);
    assert(skip_trivia(s, p) == Trivia::Next(p));
    assert forall|i: int| 0 <= i < n implies #[trigger] s.subrange(p + 1, p + 1 + n)[i] == escaped(x)[i] by {
        assert(s.subrange(p + 1, p + 1 + n)[i] == s[p + 1 + i]);
        assert(s[p + 1 + i] == s.subrange(p, p + q.len())[1 + i]);
        assert(q[1 + i] == escaped(x)[i]);
    }
    assert(s.subrange(p + 1, p + 1 + n) =~= escaped(x));
    assert(s[p + 1 + n] == q[n + 1]);
    lemma_body_escaped(s, p + 1, x);
    if x.len() > 0 {
        lemma_escaped_front(x[0], x.drop_first());
        assert(x =~= seq![x[0]] + x.drop_first());
        lemma_escape_char_start(x[0]);
        assert(s[p + 1] == q[1]);
        assert(q[1] == escape_char(x[0])[0]);
    } else {
        assert(s[p + 1] == q[1]);
    }
    assert(string_at(s, p) == Lexed::Tok(TokenModel::BasicString(x), p + n + 2));
    assert(token_at(s, p, key_mode) == string_at(s, p));
}

/// A control character: below U+0020, or U+007F.
pub open spec fn is_raw_control(c: char) -> bool {
    (c as u32) < 0x20 || (c as u32) == 0x7F
}

proof fn lemma_hex_digits_plain(n: nat, w: nat)
    ensures
        forall|k: int| 0 <= k < hex_digits(n, w).len() ==> {
            let c = #[trigger] hex_digits(n, w)[k];
            !is_raw_control(c) && c != '"' && c != '\\'
        },
    decreases w,
{
    if w > 0 {
        lemma_hex_digits_plain(n / 16, (w - 1) as nat);
        let d = (n % 16) as int;
        assert(0 <= d < 16);
        assert forall|k: int| 0 <= k < hex_digits(n, w).len() implies {
            let c = #[trigger] hex_digits(n, w)[k];
            !is_raw_control(c) && c != '"' && c != '\\'
        } by {
            if k < hex_digits(n / 16, (w - 1) as nat).len() {
                assert(hex_digits(n, w)[k] == hex_digits(n / 16, (w - 1) as nat)[k]);
            } else {
                assert(hex_digits(n, w)[k] == hex_char(d));
            }
        }
    }
}

/// What `escape_string` writes for a string holds no control character, and
/// each `"` in it has a backslash just before it.
pub proof fn law_escaped_text_is_plain(x: Seq<char>)
    ensures
        forall|i: int| 0 <= i < escaped(x).len() ==> !is_raw_control(#[trigger] escaped(x)[i]),
        forall|i: int| 0 <= i < escaped(x).len() && #[trigger] escaped(x)[i] == '"' ==> i > 0 && escaped(x)[i - 1] == '\\',
    decreases x.len(),
{
    if x.len() > 0 {
        let a = escaped(x.drop_last());
        let c = x.last();
        let b = escape_char(c);
        law_escaped_text_is_plain(x.drop_last());
        if (c as u32) < 0x20 || (c as u32) == 0x7F {
            lemma_hex_digits_plain(c as u32 as nat, 4);
        }
        assert(escaped(x) == a + b);
        assert(b.len() >= 1 && b[0] != '"');
        assert forall|k: int| 0 <= k < b.len() implies !is_raw_control(#[trigger] b[k])
            && (b[k] == '"' ==> k > 0 && b[k - 1] == '\\') by {
            if (c as u32) < 0x20 || (c as u32) == 0x7F {
                if k >= 2 {
                    assert(b[k] == hex_digits(c as u32 as nat, 4)[k - 2]);
                }
            }
        }
        assert forall|i: int| 0 <= i < escaped(x).len() implies !is_raw_control(#[trigger] escaped(x)[i]) by {
            if i < a.len() {
                assert(escaped(x)[i] == a[i]);
            } else {
                assert(escaped(x)[i] == b[i - a.len()]);
            }
        }
        assert forall|i: int| 0 <= i < escaped(x).len() && #[trigger] escaped(x)[i] == '"' implies i > 0 && escaped(x)[i - 1] == '\\' by {
            if i < a.len() {
                assert(escaped(x)[i] == a[i]);
                assert(escaped(x)[i - 1] == a[i - 1]);
            } else {
                assert(escaped(x)[i] == b[i - a.len()]);
                assert(escaped(x)[i - 1] == b[i - 1 - a.len()]);
            }
        }
    }
}

/// A string as the printer writes it, in double quotes with its escapes
/// (what `escape_string` gives), is read back by the lexer as a basic
/// string token holding the same characters, whatever comes before it and
/// whatever comes after it but a `"`.
pub proof fn law_printed_string_reads_back(pre: Seq<char>, x: Seq<char>, rest: Seq<char>, key_mode: bool)
    requires
        rest.len() == 0 || rest[0] != '"',
    ensures
        lex_at(pre + quoted_text(x) + rest, pre.len() as int, key_mode)
            == Lexed::Tok(TokenModel::BasicString(x), (pre.len() + quoted_text(x).len()) as int),
{
    let q = quoted_text(x);
    let s = pre + q + rest;
    let p = pre.len() as int;
    assert(s.subrange(p, p + q.len()) =~= q);
    if p + q.len() < s.len() {
        assert(s[p + q.len()] == rest[0]);
    }
    lemma_lex_string(s, p, x, key_mode);
}

/// Spaces and tabs between tokens are skipped alike: reading a token from
/// the start of a run of spaces and tabs gives what reading from its end
/// gives.
pub proof fn law_blanks_are_skipped(s: Seq<char>, i: int, k: nat, key_mode: bool)
    requires
        0 <= i,
        i + k <= s.len(),
        forall|j: int| i <= j < i + k ==> #[trigger] s[j] == ' ' || s[j] == '\t',
    ensures
        lex_at(s, i, key_mode) == lex_at(s, i + k, key_mode),
    decreases k,
{
    reveal(lex_at);
    if k > 0 {
        assert(s[i] == ' ' || s[i] == '\t');
        law_blanks_are_skipped(s, i + 1, (k - 1) as nat, key_mode);
    }
}

/// The body of a literal string whose characters from `k` on are those of
/// `x` from `k` on, then a closing quote.
proof fn lemma_literal_body_plain(s: Seq<char>, p: int, x: Seq<char>, k: int)
    requires
        0 <= p,
        0 <= k <= x.len(),
        p + x.len() + 2 <= s.len(),
        forall|j: int| 0 <= j < x.len() ==> #[trigger] s[p + 1 + j] == x[j],
        s[p + 1 + x.len()] == '\'',
        forall|j: int| 0 <= j < x.len() ==> #[trigger] x[j] != '\'' && !is_control(x[j]),
    ensures
        literal_body(s, p + 1 + k) == Body::Done(x.subrange(k, x.len() as int), p + x.len() + 2),
    decreases x.len() - k,
{
    if k == x.len() {
        assert(x.subrange(k, x.len() as int) =~= Seq::<char>::empty());
    } else {
        let c = x[k];
        assert(s[p + 1 + k] == c);
        assert(c != '\'' && !is_control(c));
        assert(c != '\n' && c != '\r');
        lemma_literal_body_plain(s, p, x, k + 1);
        assert(seq![c] + x.subrange(k + 1, x.len() as int) =~= x.subrange(k, x.len() as int));
    }
}

/// A literal string holds every character but `'` and the control
/// characters (those below U+0020 other than tab, and U+007F): a quote,
/// such characters and a quote are read as a literal string holding them,
/// whatever comes before, and whatever comes after unless the string is
/// empty and a third quote follows (which opens a multi-line string).
pub proof fn law_literal_string_holds_its_text(pre: Seq<char>, x: Seq<char>, rest: Seq<char>, key_mode: bool)
    requires
        forall|j: int| 0 <= j < x.len() ==> #[trigger] x[j] != '\'' && ((x[j] as u32) == 9 || ((x[j] as u32) >= 0x20 && (x[j] as u32) != 0x7F)),
        x.len() > 0 || rest.len() == 0 || rest[0] != '\'',
    ensures
        lex_at(pre + seq!['\''] + x + seq!['\''] + rest, pre.len() as int, key_mode)
            == Lexed::Tok(TokenModel::LiteralString(x), (pre.len() + x.len() + 2) as int),
{
    let s = pre + seq!['\''] + x + seq!['\''] + rest;
    let p = pre.len() as int;
    assert(s[p] == '\'');
    assert forall|j: int| 0 <= j < x.len() implies #[trigger] s[p + 1 + j] == x[j] by {
        assert(s[p + 1 + j] == (pre + seq!['\''] + x)[p + 1 + j]);
    }
    assert(s[p + 1 + x.len()] == '\'');
    assert forall|j: int| 0 <= j < x.len() implies #[trigger] x[j] != '\'' && !is_control(x[j]) by {
        assert(x[j] != '\'' && ((x[j] as u32) == 9 || ((x[j] as u32) >= 0x20 && (x[j] as u32) != 0x7F)));
    }
    lemma_literal_body_plain(s, p, x, 0);
    assert(x.subrange(0, x.len() as int) =~= x);
    if x.len() > 0 {
        assert(s[p + 1] == x[0]);
    } else if rest.len() > 0 {
        assert(s[p + 2] == rest[0]);
    }
    assert(string_at(s, p) == Lexed::Tok(TokenModel::LiteralString(x), p + x.len() + 2));
    reveal(lex_at);
    assert(skip_trivia(s, p) == Trivia::Next(p));
    assert(token_at(s, p, key_mode) == string_at(s, p));
}

/// A space before a token is skipped.
pub(crate) proof fn lemma_lex_space(s: Seq<char>, p: int, key_mode: bool)
    requires
        0 <= p < s.len(),
        s[p] == ' ',
    ensures
        lex_at(s, p, key_mode) == lex_at(s, p + 1, key_mode),
{
    reveal(lex_at);
}

/// The token of a punctuation character.
pub open spec fn punct(c: char) -> Option<TokenModel> {
    if c == ',' {
        Some(TokenModel::Comma)
    } else if c == '=' {
        Some(TokenModel::Equals)
    } else if c == '.' {
        Some(TokenModel::Dot)
    } else if c == '{' {
        Some(TokenModel::LBrace)
    } else if c == '}' {
        Some(TokenModel::RBrace)
    } else if c == '[' {
        Some(TokenModel::LBracket)
    } else if c == ']' {
        Some(TokenModel::RBracket)
    } else {
        None
    }
}

/// A punctuation character is read as its token; a bracket must not be
/// followed by another of its kind.
pub(crate) proof fn lemma_lex_punct(s: Seq<char>, p: int, key_mode: bool)
    requires
        0 <= p < s.len(),
        punct(s[p]) is Some,
        (s[p] == '[' || s[p] == ']') ==> (p + 1 == s.len() || s[p + 1] != s[p]),
    ensures
        lex_at(s, p, key_mode) == Lexed::Tok(punct(s[p]).unwrap(), p + 1),
{
    reveal(lex_at);
    assert(skip_trivia(s, p) == Trivia::Next(p));
}

/// `true` or `false`, not followed by a word character, is read as a
/// boolean where a value is expected.
proof fn lemma_lex_bool(s: Seq<char>, p: int, b: bool, key_mode: bool)
    requires
        !key_mode,
        0 <= p,
        p + bool_text(b).len() <= s.len(),
        s.subrange(p, p + bool_text(b).len()) == bool_text(b),
        p + bool_text(b).len() == s.len() || !is_word_char(s[p + bool_text(b).len()]),
    ensures
        lex_at(s, p, key_mode) == Lexed::Tok(TokenModel::Boolean(b), p + bool_text(b).len()),
{
    reveal(lex_at);
    let w = bool_text(b);
    assert(s[p] == w[0]);
    assert(skip_trivia(s, p) == Trivia::Next(p));
    if b {
        assert(keyword_at(s, p, seq!['t', 'r', 'u', 'e']));
    } else {
        assert(keyword_at(s, p, seq!['f', 'a', 'l', 's', 'e']));
    }
}

/// The text of a boolean.
pub open spec fn bool_text(b: bool) -> Seq<char> {
    if b {
        seq!['t', 'r', 'u', 'e']
    } else {
        seq!['f', 'a', 'l', 's', 'e']
    }
}

/// A key the printer writes bare and the lexer reads back as a bare key
/// where a key is expected: it starts with a letter or `_`.
pub open spec fn plain_key(k: Seq<char>) -> bool {
    &&& is_bare(k)
    &&& is_word_char(k[0]) && !is_digit(k[0])
}

proof fn lemma_bare_end(s: Seq<char>, p: int, e: int)
    requires
        0 <= p <= e <= s.len(),
        forall|i: int| p <= i < e ==> bare_key_char(#[trigger] s[i]),
        e == s.len() || !bare_key_char(s[e]),
    ensures
        bare_end(s, p) == e,
    decreases e - p,
{
    if p < e {
        lemma_bare_end(s, p + 1, e);
    }
}

/// A plain key, not followed by a bare-key character, is read as a bare
/// key.
proof fn lemma_lex_bare_key(s: Seq<char>, p: int, k: Seq<char>, key_mode: bool)
    requires
        key_mode,
        plain_key(k),
        0 <= p,
        p + k.len() <= s.len(),
        s.subrange(p, p + k.len()) == k,
        p + k.len() == s.len() || !bare_key_char(s[p + k.len()]),
    ensures
        lex_at(s, p, key_mode) == Lexed::Tok(TokenModel::BareKey(k), p + k.len()),
{
    reveal(lex_at);
    let e = p + k.len();
    assert(s[p] == k[0]);
    assert(skip_trivia(s, p) == Trivia::Next(p));
    assert forall|i: int| p <= i < e implies bare_key_char(#[trigger] s[i]) by {
        assert(s[i] == k[i - p]);
    }
    lemma_bare_end(s, p, e);
    assert(s.subrange(p, e) == k);
}

/// The value of a sequence of decimal digits.
pub open spec fn digits_value(d: Seq<char>) -> nat
    decreases d.len(),
{
    if d.len() == 0 {
        0
    } else {
        digits_value(d.drop_last()) * 10 + hex_value(d.last())
    }
}

proof fn lemma_digit_char(d: int)
    requires
        0 <= d < 10,
    ensures
        is_digit(digit_char(d)),
        hex_value(digit_char(d)) == d,
        (digit_char(d) == '0') == (d == 0),
{
    assert((48 + d) as char as u32 == 48 + d);
}

/// The digits of `m`: all decimal digits, read back as `m`, with a leading
/// `0` only for zero.
pub(crate) proof fn lemma_nat_digits(m: nat)
    ensures
        nat_digits(m).len() >= 1,
        forall|i: int| 0 <= i < nat_digits(m).len() ==> is_digit(#[trigger] nat_digits(m)[i]),
        digits_value(nat_digits(m)) == m,
        (nat_digits(m)[0] == '0') == (m == 0),
    decreases m,
{
    if m < 10 {
        lemma_digit_char(m as int);
        assert(nat_digits(m).drop_last() =~= Seq::<char>::empty());
        assert(digits_value(Seq::<char>::empty()) == 0);
        assert(digits_value(nat_digits(m)) == 0 * 10 + hex_value(digit_char(m as int)));
    } else {
        lemma_nat_digits(m / 10);
        lemma_digit_char((m % 10) as int);
        let d = nat_digits(m);
        assert(d.drop_last() =~= nat_digits(m / 10));
        assert(d.last() == digit_char((m % 10) as int));
        assert(digits_value(d) == digits_value(nat_digits(m / 10)) * 10 + hex_value(d.last()));
        assert(m == (m / 10) * 10 + m % 10);
        assert(d[0] == nat_digits(m / 10)[0]);
        assert forall|i: int| 0 <= i < d.len() implies is_digit(#[trigger] d[i]) by {
            if i < d.len() - 1 {
                assert(d[i] == nat_digits(m / 10)[i]);
            }
        }
    }
}

/// The value of digits, from their first digit.
proof fn lemma_digits_value_front(d: Seq<char>)
    requires
        d.len() >= 1,
    ensures
        digits_value(d) == hex_value(d[0]) * pow10((d.len() - 1) as nat) + digits_value(d.drop_first()),
    decreases d.len(),
{
    if d.len() == 1 {
        assert(d.drop_last() =~= Seq::<char>::empty());
        assert(d.drop_first() =~= Seq::<char>::empty());
        assert(digits_value(Seq::<char>::empty()) == 0);
        assert(pow10(0) == 1);
        assert(digits_value(d) == 0 * 10 + hex_value(d.last()));
        assert(d.last() == d[0]);
    } else {
        let a = d.drop_last();
        lemma_digits_value_front(a);
        assert(a.drop_first() =~= d.drop_first().drop_last());
        assert(d.drop_first().last() == d.last());
        assert(a[0] == d[0]);
        assert(digits_value(d.drop_first()) == digits_value(d.drop_first().drop_last()) * 10 + hex_value(d.drop_first().last()));
        let h = hex_value(d[0]);
        let p = pow10((d.len() - 2) as nat);
        let m = digits_value(a.drop_first());
        assert(pow10((d.len() - 1) as nat) == 10 * p);
        assert(digits_value(a) == h * p + m);
        assert(digits_value(d) == digits_value(a) * 10 + hex_value(d.last()));
        assert((h * p + m) * 10 + hex_value(d.last()) == h * (10 * p) + (m * 10 + hex_value(d.last()))) by (nonlinear_arith);
    }
}

/// Reading a run of `k` digits at `i` adds their value to the number read.
proof fn lemma_dec_scan_run(s: Seq<char>, i: int, k: nat, acc: nat, count: nat, lead0: bool, first: bool)
    requires
        0 <= i,
        i + k <= s.len(),
        forall|j: int| i <= j < i + k ==> is_digit(#[trigger] s[j]),
    ensures
        dec_scan(s, i, acc, count, lead0, false, first) == dec_scan(
            s,
            i + k,
            acc * pow10(k) + digits_value(s.subrange(i, i + k)),
            count + k,
            lead0 || (first && k > 0 && s[i] == '0'),
            false,
            first && k == 0,
        ),
    decreases k,
{
    if k == 0 {
        assert(s.subrange(i, i) =~= Seq::<char>::empty());
        assert(digits_value(Seq::<char>::empty()) == 0);
        assert(pow10(0) == 1);
        assert(acc * 1 == acc);
    } else {
        let d = s.subrange(i, i + k);
        let acc1 = acc * 10 + hex_value(s[i]);
        assert(is_digit(s[i]));
        assert(s[i] != '_');
        assert(dec_scan(s, i, acc, count, lead0, false, first)
            == dec_scan(s, i + 1, acc1, count + 1, lead0 || (first && s[i] == '0'), false, false));
        lemma_dec_scan_run(s, i + 1, (k - 1) as nat, acc1, count + 1, lead0 || (first && s[i] == '0'), false);
        lemma_digits_value_front(d);
        assert(d.drop_first() =~= s.subrange(i + 1, i + k));
        assert(d[0] == s[i]);
        let p = pow10((k - 1) as nat);
        assert(pow10(k) == 10 * p);
        let r = digits_value(s.subrange(i + 1, i + k));
        assert(acc1 * p + r == acc * (10 * p) + (hex_value(s[i]) * p + r)) by (nonlinear_arith)
            requires
                acc1 == acc * 10 + hex_value(s[i]);
        assert(digits_value(d) == hex_value(s[i]) * p + r);
        assert(acc * pow10(k) + digits_value(d) == acc1 * p + r);
    }
}

/// What may follow a printed value: nothing, a comma, a newline (or the
/// carriage return of one), or a space that is not followed by a digit.
pub open spec fn value_end(rest: Seq<char>) -> bool {
    rest.len() == 0 || (value_end_char(rest[0]) && (rest[0] == ' ' ==> rest.len() == 1 || !is_digit(rest[1])))
}

/// A character that may follow a printed value: a space, a comma, a
/// newline or a carriage return.
pub open spec fn value_end_char(c: char) -> bool {
    c == ' ' || c == ',' || c == '\n' || c == '\r'
}

/// The decimal text of an integer, followed by the end of the text or by a
/// space, a comma or a newline, is read as that integer.
proof fn lemma_lex_int(s: Seq<char>, p: int, n: i64, key_mode: bool)
    requires
        0 <= p,
        p + decimal_digits(n as int).len() <= s.len(),
        s.subrange(p, p + decimal_digits(n as int).len()) == decimal_digits(n as int),
        p + decimal_digits(n as int).len() == s.len() || value_end_char(s[p + decimal_digits(n as int).len()]),
    ensures
        lex_at(s, p, key_mode) == Lexed::Tok(TokenModel::Integer(n), p + decimal_digits(n as int).len()),
{
    reveal(lex_at);
    let t = decimal_digits(n as int);
    let e = p + t.len();
    let neg = n < 0;
    let m: nat = if neg { (-(n as int)) as nat } else { n as nat };
    let q = if neg { p + 1 } else { p };
    lemma_nat_digits(m);
    let d = nat_digits(m);
    assert(t =~= if neg { seq!['-'] + d } else { d });
    assert(q + d.len() == e);
    assert forall|j: int| q <= j < e implies #[trigger] s[j] == d[j - q] by {
        assert(s[j] == s.subrange(p, e)[j - p]);
        assert(t[j - p] == d[j - q]);
    }
    assert forall|j: int| q <= j < e implies is_digit(#[trigger] s[j]) by {
        assert(s[j] == d[j - q]);
    }
    assert(s.subrange(q, e) =~= d);
    assert(s[p] == t[0]);
    assert(skip_trivia(s, p) == Trivia::Next(p));
    lemma_dec_scan_run(s, q, d.len(), 0, 0, false, true);
    assert(dec_scan(s, e, digits_value(d), d.len(), s[q] == '0', false, false)
        == crate::grammar::DecPart::Done { end: e, value: m, count: d.len(), leading_zero: s[q] == '0' });
    assert(s[q] == d[0]);
    if neg {
        assert(s[p] == '-');
        assert(is_digit(s[p + 1]));
        assert(m <= 0x8000_0000_0000_0000);
        assert(signed_at(s, p, key_mode) == number_at(s, p, key_mode));
    } else {
        assert(is_digit(s[p]));
        if d.len() >= 5 {
            assert(is_digit(s[p + 4]));
        } else if d.len() < 4 {
            assert(!is_digit(s[p + d.len()]) || p + d.len() == s.len());
        }
        assert(!date_like(s, p));
        if d.len() >= 3 {
            assert(is_digit(s[p + 2]));
        }
        assert(!time_like(s, p));
        assert(digit_start_at(s, p, key_mode) == number_at(s, p, key_mode));
    }
}

/// The first position from `i` that holds no decimal digit.
pub open spec fn digit_end(t: Seq<char>, i: int) -> int
    decreases t.len() - i,
{
    if 0 <= i < t.len() && is_digit(t[i]) {
        digit_end(t, i + 1)
    } else {
        i
    }
}

/// An exponent at `i` of `t`, running to its end: `e` or `E`, an optional
/// sign, then digits.
pub open spec fn exponent_text(t: Seq<char>, i: int) -> bool {
    let j = if i + 1 < t.len() && (t[i + 1] == '+' || t[i + 1] == '-') { i + 2 } else { i + 1 };
    &&& 0 <= i < t.len()
    &&& (t[i] == 'e' || t[i] == 'E')
    &&& j < t.len()
    &&& digit_end(t, j) == t.len()
}

/// A float written with digits: an optional `-`, digits, then a `.` and
/// digits, an exponent, or both.
pub open spec fn number_float_text(t: Seq<char>) -> bool {
    let i0: int = if t.len() > 0 && t[0] == '-' { 1 } else { 0 };
    let i1 = digit_end(t, i0);
    let frac = i1 < t.len() && t[i1] == '.';
    let i2 = if frac { digit_end(t, i1 + 1) } else { i1 };
    &&& i1 > i0
    &&& (frac ==> i2 > i1 + 1)
    &&& (i2 == t.len() ==> frac)
    &&& (i2 < t.len() ==> exponent_text(t, i2))
}

/// A float as the lexer keeps it: `inf`, `-inf`, `nan`, or digits as
/// `number_float_text` says.
pub open spec fn float_text(t: Seq<char>) -> bool {
    ||| t == seq!['i', 'n', 'f']
    ||| t == seq!['-', 'i', 'n', 'f']
    ||| t == seq!['n', 'a', 'n']
    ||| number_float_text(t)
}

pub(crate) proof fn lemma_digit_end_bounds(t: Seq<char>, i: int)
    requires
        0 <= i <= t.len(),
    ensures
        i <= digit_end(t, i) <= t.len(),
        forall|j: int| i <= j < digit_end(t, i) ==> is_digit(#[trigger] t[j]),
        digit_end(t, i) == t.len() || !is_digit(t[digit_end(t, i)]),
    decreases t.len() - i,
{
    if i < t.len() && is_digit(t[i]) {
        lemma_digit_end_bounds(t, i + 1);
    }
}

proof fn lemma_digit_run_us(s: Seq<char>, i: int, e: int)
    requires
        0 <= i <= e <= s.len(),
        forall|j: int| i <= j < e ==> is_digit(#[trigger] s[j]),
        e == s.len() || (!is_digit(s[e]) && s[e] != '_'),
    ensures
        digit_run_us(s, i, false, false) == Num::Done(0, e),
        digit_run_us(s, i, false, true) == Num::Done(0, e),
    decreases e - i,
{
    if i < e {
        assert(is_digit(s[i]));
        assert(s[i] != '_');
        lemma_digit_run_us(s, i + 1, e);
    }
}

proof fn lemma_strip_no_underscores(t: Seq<char>)
    requires
        forall|i: int| 0 <= i < t.len() ==> #[trigger] t[i] != '_',
    ensures
        strip_underscores(t) == t,
    decreases t.len(),
{
    if t.len() > 0 {
        lemma_strip_no_underscores(t.drop_last());
        assert(strip_underscores(t.drop_last()).push(t.last()) =~= t);
    }
}

/// The text after a value is no digit and no `_`.
proof fn lemma_after_value(s: Seq<char>, e: int)
    requires
        0 <= e,
        ended(s, e),
        e < s.len(),
    ensures
        !is_digit(s[e]),
        s[e] != '_',
        s[e] != '.',
        s[e] != 'e',
        s[e] != 'E',
        !is_word_char(s[e]),
        !bare_key_char(s[e]),
        s[e] != '"',
        s[e] != ']',
        s[e] != '[',
{
}

/// A float written with digits has no `_`.
proof fn lemma_float_no_underscore(t: Seq<char>)
    requires
        number_float_text(t),
    ensures
        forall|j: int| 0 <= j < t.len() ==> #[trigger] t[j] != '_',
{
    let n = t.len() as int;
    let i0: int = if t.len() > 0 && t[0] == '-' { 1 } else { 0 };
    let i1 = digit_end(t, i0);
    let frac = i1 < n && t[i1] == '.';
    let i2 = if frac { digit_end(t, i1 + 1) } else { i1 };
    lemma_digit_end_bounds(t, i0);
    if frac {
        lemma_digit_end_bounds(t, i1 + 1);
    }
    assert forall|j: int| 0 <= j < n implies #[trigger] t[j] != '_' by {
        if j < i0 {
        } else if j < i1 {
            assert(is_digit(t[j]));
        } else if j == i1 {
        } else if frac && j < i2 {
            assert(is_digit(t[j]));
        } else if j == i2 {
        } else {
            let jj = if i2 + 1 < n && (t[i2 + 1] == '+' || t[i2 + 1] == '-') { i2 + 2 } else { i2 + 1 };
            lemma_digit_end_bounds(t, jj);
            if j >= jj {
                assert(is_digit(t[j]));
            }
        }
    }
}

/// The end of a float written with digits, from the end of its integer
/// digits.
proof fn lemma_float_end(s: Seq<char>, p: int, t: Seq<char>)
    requires
        number_float_text(t),
        text_at(s, p, t),
        ended(s, p + t.len()),
    ensures
        ({
            let i0: int = if t[0] == '-' { 1 } else { 0 };
            float_end(s, p + digit_end(t, i0)) == Num::Done(0, p + t.len())
        }),
{
    let n = t.len() as int;
    let e = p + n;
    let i0: int = if t[0] == '-' { 1 } else { 0 };
    let i1 = digit_end(t, i0);
    let frac = i1 < n && t[i1] == '.';
    let i2 = if frac { digit_end(t, i1 + 1) } else { i1 };
    lemma_digit_end_bounds(t, i0);
    if e < s.len() {
        lemma_after_value(s, e);
    }
    assert forall|j: int| 0 <= j < n implies #[trigger] s[p + j] == t[j] by {
        lemma_text_char(s, p, t, j);
    }
    let fe = if frac {
        lemma_digit_end_bounds(t, i1 + 1);
        assert forall|j: int| p + i1 + 1 <= j < p + i2 implies is_digit(#[trigger] s[j]) by {
            assert(s[p + (j - p)] == t[j - p]);
        }
        assert(p + i2 == s.len() || (!is_digit(s[p + i2]) && s[p + i2] != '_')) by {
            if i2 < n {
                assert(s[p + i2] == t[i2]);
            }
        }
        lemma_digit_run_us(s, p + i1 + 1, p + i2);
        assert(s[p + i1] == t[i1]);
        assert(s[p + i1 + 1] == t[i1 + 1]);
        p + i2
    } else {
        p + i1
    };
    if i2 < n {
        let jj = if i2 + 1 < n && (t[i2 + 1] == '+' || t[i2 + 1] == '-') { i2 + 2 } else { i2 + 1 };
        lemma_digit_end_bounds(t, jj);
        assert(s[p + i2] == t[i2]);
        if i2 + 1 < n {
            assert(s[p + i2 + 1] == t[i2 + 1]);
        }
        assert forall|j: int| p + jj <= j < e implies is_digit(#[trigger] s[j]) by {
            assert(s[p + (j - p)] == t[j - p]);
        }
        lemma_digit_run_us(s, p + jj, e);
        assert(s[p + jj] == t[jj]);
        assert(exponent_end(s, fe) == Num::Done(0, e));
    } else {
        assert(exponent_end(s, fe) == Num::Done(0, e));
    }
    if !frac {
        assert(i1 < n);
        assert(s[p + i1] == t[i1]);
    }
}

/// A float written with digits is read as a float holding its text.
#[verifier::rlimit(100)]
proof fn lemma_lex_number_float(s: Seq<char>, p: int, t: Seq<char>)
    requires
        number_float_text(t),
        text_at(s, p, t),
        ended(s, p + t.len()),
    ensures
        lex_at(s, p, false) == Lexed::Tok(TokenModel::Float(t), p + t.len()),
{
    reveal(lex_at);
    let n = t.len() as int;
    let e = p + n;
    let neg = t[0] == '-';
    let i0: int = if neg { 1 } else { 0 };
    let i1 = digit_end(t, i0);
    let q = p + i0;
    lemma_digit_end_bounds(t, i0);
    if e < s.len() {
        lemma_after_value(s, e);
    }
    assert forall|j: int| 0 <= j < n implies #[trigger] s[p + j] == t[j] by {
        lemma_text_char(s, p, t, j);
    }
    assert(s[p] == t[0]);
    assert(skip_trivia(s, p) == Trivia::Next(p));
    assert forall|j: int| q <= j < p + i1 implies is_digit(#[trigger] s[j]) by {
        assert(s[p + (j - p)] == t[j - p]);
    }
    assert(s[p + i1] == t[i1]);
    lemma_dec_scan_run(s, q, (i1 - i0) as nat, 0, 0, false, true);
    lemma_float_end(s, p, t);
    lemma_float_no_underscore(t);
    assert(s.subrange(q, e) =~= t.subrange(i0, n));
    lemma_strip_no_underscores(t.subrange(i0, n));
    assert((if neg { seq!['-'] } else { Seq::<char>::empty() }) + t.subrange(i0, n) =~= t);
    assert(float_at(s, q, p + i1, neg) == Lexed::Tok(TokenModel::Float(t), e));
    if neg {
        assert(s[p + 1] == t[1]);
        assert(signed_at(s, p, false) == number_at(s, p, false));
    } else {
        if i1 >= 5 {
            assert(is_digit(s[p + 4]));
        } else if i1 < 4 {
            assert(!is_digit(s[p + i1]));
        } else {
            assert(s[p + 4] == t[4]);
        }
        assert(!date_like(s, p));
        if i1 >= 3 {
            assert(is_digit(s[p + 2]));
        }
        assert(!time_like(s, p));
        assert(digit_start_at(s, p, false) == number_at(s, p, false));
    }
    if i1 > i0 + 1 {
        assert(s[q + 1] == t[i0 + 1]);
    } else {
        assert(s[q + 1] == t[i1]);
    }
}

/// A float in the text the lexer keeps, followed by the end of input or
/// what ends a value, is read as a float holding that text.
proof fn lemma_lex_float(s: Seq<char>, p: int, t: Seq<char>)
    requires
        float_text(t),
        text_at(s, p, t),
        ended(s, p + t.len()),
    ensures
        lex_at(s, p, false) == Lexed::Tok(TokenModel::Float(t), p + t.len()),
{
    if t == seq!['i', 'n', 'f'] || t == seq!['-', 'i', 'n', 'f'] || t == seq!['n', 'a', 'n'] {
        reveal(lex_at);
        let e = p + t.len();
        if e < s.len() {
            lemma_after_value(s, e);
        }
        assert forall|j: int| 0 <= j < t.len() implies #[trigger] s[p + j] == t[j] by {
            lemma_text_char(s, p, t, j);
        }
        assert(skip_trivia(s, p) == Trivia::Next(p));
        if t == seq!['i', 'n', 'f'] {
            assert(s.subrange(p, p + 3) =~= t);
            assert(keyword_at(s, p, seq!['i', 'n', 'f']));
        } else if t == seq!['n', 'a', 'n'] {
            assert(s.subrange(p, p + 3) =~= t);
            assert(keyword_at(s, p, seq!['n', 'a', 'n']));
        } else {
            assert(s[p + 1] == 'i' && s[p + 2] == 'n' && s[p + 3] == 'f');
        }
    } else {
        lemma_lex_number_float(s, p, t);
    }
}

/// Reading `d.len()` digits that are `d` adds their value to `acc`.
proof fn lemma_digits_scan(s: Seq<char>, i: int, d: Seq<char>, acc: nat)
    requires
        text_at(s, i, d),
        forall|j: int| 0 <= j < d.len() ==> is_digit(#[trigger] d[j]),
    ensures
        digits_scan(s, i, d.len(), acc) == Num::Done(acc * pow10(d.len()) + digits_value(d), i + d.len()),
    decreases d.len(),
{
    if d.len() == 0 {
        assert(pow10(0) == 1);
        assert(acc * 1 == acc);
    } else {
        lemma_text_char(s, i, d, 0);
        let acc1 = acc * 10 + hex_value(d[0]);
        lemma_text_sub(s, i, d, 1, d.len() as int);
        assert(d.subrange(1, d.len() as int) =~= d.drop_first());
        lemma_digits_scan(s, i + 1, d.drop_first(), acc1);
        lemma_digits_value_front(d);
        let pw = pow10((d.len() - 1) as nat);
        assert(pow10(d.len()) == 10 * pw);
        let r = digits_value(d.drop_first());
        assert(acc1 * pw + r == acc * (10 * pw) + (hex_value(d[0]) * pw + r)) by (nonlinear_arith)
            requires
                acc1 == acc * 10 + hex_value(d[0]);
        assert(digits_scan(s, i, d.len(), acc) == digits_scan(s, i + 1, (d.len() - 1) as nat, acc1));
    }
}

proof fn lemma_digits_value_zeros(k: nat, d: Seq<char>)
    ensures
        digits_value(Seq::new(k, |i: int| '0') + d) == digits_value(d),
    decreases d.len(), k,
{
    let z = Seq::new(k, |i: int| '0');
    if d.len() == 0 {
        assert(z + d =~= z);
        if k > 0 {
            lemma_digits_value_zeros((k - 1) as nat, d);
            assert(z.drop_last() =~= Seq::new((k - 1) as nat, |i: int| '0'));
            assert(Seq::new((k - 1) as nat, |i: int| '0') + d =~= Seq::new((k - 1) as nat, |i: int| '0'));
            assert(hex_value('0') == 0);
        }
    } else {
        lemma_digits_value_zeros(k, d.drop_last());
        assert((z + d).drop_last() =~= z + d.drop_last());
    }
}

proof fn lemma_nat_digits_len_bound(v: nat, w: nat)
    requires
        v < pow10(w),
    ensures
        nat_digits(v).len() <= if w == 0 { 1 } else { w },
    decreases v,
{
    if v >= 10 {
        assert(w >= 2) by {
            if w < 2 {
                assert(pow10(0) == 1);
                assert(pow10(1) == 10);
            }
        }
        assert(v / 10 < pow10((w - 1) as nat)) by {
            assert(pow10(w) == 10 * pow10((w - 1) as nat));
        }
        lemma_nat_digits_len_bound(v / 10, (w - 1) as nat);
    }
}

/// `v`, zero-padded to `w` digits, when it has at most `w` digits: `w`
/// decimal digits whose value is `v`.
proof fn lemma_padded(v: nat, w: nat)
    requires
        w >= 1,
        v < pow10(w),
    ensures
        padded_digits(v, w).len() == w,
        forall|j: int| 0 <= j < w ==> is_digit(#[trigger] padded_digits(v, w)[j]),
        digits_value(padded_digits(v, w)) == v,
{
    lemma_nat_digits(v);
    lemma_nat_digits_len_bound(v, w);
    let d = nat_digits(v);
    let z = Seq::new((w - d.len()) as nat, |i: int| '0');
    assert(padded_digits(v, w) =~= z + d);
    lemma_digits_value_zeros((w - d.len()) as nat, d);
    assert forall|j: int| 0 <= j < w implies is_digit(#[trigger] padded_digits(v, w)[j]) by {
        if j < z.len() {
            assert(is_digit('0'));
        } else {
            assert(padded_digits(v, w)[j] == d[j - z.len()]);
        }
    }
}

/// A valid date.
pub open spec fn date_ok(d: LocalDate) -> bool {
    d.year <= 9999 && 1 <= d.month <= 12 && 1 <= d.day <= 31
}

/// A valid time of day.
pub open spec fn time_ok(t: LocalTime) -> bool {
    t.hour <= 23 && t.minute <= 59 && t.second <= 60 && t.nanosecond < 1_000_000_000
}

/// A valid offset: `Z`, or less than a day in minutes.
pub open spec fn offset_ok(o: UtcOffset) -> bool {
    match o {
        UtcOffset::Z => true,
        UtcOffset::Minutes(m) => -1439 <= m <= 1439,
    }
}

proof fn lemma_pow10_small()
    ensures
        pow10(2) == 100,
        pow10(4) == 10000,
        pow10(9) == 1_000_000_000,
{
    reveal_with_fuel(pow10, 10);
}

/// A two-digit field of a date or time, read back.
proof fn lemma_field(s: Seq<char>, i: int, v: nat, w: nat)
    requires
        w == 2 || w == 4,
        v < pow10(w),
        text_at(s, i, padded_digits(v, w)),
    ensures
        digits_scan(s, i, w, 0) == Num::Done(v, i + w),
{
    lemma_padded(v, w);
    lemma_digits_scan(s, i, padded_digits(v, w), 0);
}

/// A valid date's text is read back as that date, up to where it ends.
proof fn lemma_date_scan(s: Seq<char>, p: int, d: LocalDate)
    requires
        date_ok(d),
        text_at(s, p, date_text(d)),
    ensures
        date_text(d).len() == 10,
        date_like(s, p),
        digits_scan(s, p, 4, 0) == Num::Done(d.year as nat, p + 4),
        s[p + 4] == '-',
        digits_scan(s, p + 5, 2, 0) == Num::Done(d.month as nat, p + 7),
        s[p + 7] == '-',
        digits_scan(s, p + 8, 2, 0) == Num::Done(d.day as nat, p + 10),
{
    lemma_pow10_small();
    let y = padded_digits(d.year as nat, 4);
    let mo = padded_digits(d.month as nat, 2);
    let dd = padded_digits(d.day as nat, 2);
    lemma_padded(d.year as nat, 4);
    lemma_padded(d.month as nat, 2);
    lemma_padded(d.day as nat, 2);
    let t = date_text(d);
    assert(t =~= y + seq!['-'] + mo + seq!['-'] + dd);
    lemma_text_sub(s, p, t, 0, 4);
    assert(t.subrange(0, 4) =~= y);
    lemma_text_sub(s, p, t, 5, 7);
    assert(t.subrange(5, 7) =~= mo);
    lemma_text_sub(s, p, t, 8, 10);
    assert(t.subrange(8, 10) =~= dd);
    lemma_field(s, p, d.year as nat, 4);
    lemma_field(s, p + 5, d.month as nat, 2);
    lemma_field(s, p + 8, d.day as nat, 2);
    lemma_text_char(s, p, t, 4);
    lemma_text_char(s, p, t, 7);
    assert forall|j: int| 0 <= j < 4 implies is_digit(#[trigger] s[p + j]) by {
        lemma_text_char(s, p, t, j);
        assert(t[j] == y[j]);
    }
    lemma_text_char(s, p, t, 5);
    lemma_text_char(s, p, t, 6);
    assert(t[5] == mo[0] && t[6] == mo[1]);
}

proof fn lemma_digit_count(s: Seq<char>, i: int, k: nat)
    requires
        0 <= i,
        i + k <= s.len(),
        forall|j: int| i <= j < i + k ==> is_digit(#[trigger] s[j]),
        i + k == s.len() || !is_digit(s[i + k]),
    ensures
        digit_count(s, i) == k,
    decreases k,
{
    if k > 0 {
        lemma_digit_count(s, i + 1, (k - 1) as nat);
    }
}

/// Trimming the trailing zeros of digits divides their value by a power of
/// ten, and keeps a non-zero value's digits non-empty.
proof fn lemma_trim_value(d: Seq<char>)
    requires
        forall|j: int| 0 <= j < d.len() ==> is_digit(#[trigger] d[j]),
    ensures
        trim_zeros(d).len() <= d.len(),
        trim_zeros(d) == d.subrange(0, trim_zeros(d).len() as int),
        digits_value(d) == digits_value(trim_zeros(d)) * pow10((d.len() - trim_zeros(d).len()) as nat),
        digits_value(d) > 0 ==> trim_zeros(d).len() >= 1,
        trim_zeros(d).len() == 0 || trim_zeros(d).last() != '0',
    decreases d.len(),
{
    if d.len() > 0 && d.last() == '0' {
        lemma_trim_value(d.drop_last());
        let t = trim_zeros(d.drop_last());
        assert(trim_zeros(d) == t);
        assert(d.drop_last().subrange(0, t.len() as int) =~= d.subrange(0, t.len() as int));
        let k = (d.len() - 1 - t.len()) as nat;
        assert(hex_value('0') == 0);
        assert(digits_value(d) == digits_value(d.drop_last()) * 10);
        assert(pow10((k + 1) as nat) == 10 * pow10(k));
        assert(digits_value(t) * pow10(k) * 10 == digits_value(t) * (10 * pow10(k))) by (nonlinear_arith);
        assert(((d.len() - t.len()) as nat) == k + 1);
    } else {
        assert(d.subrange(0, d.len() as int) =~= d);
        assert(pow10(0) == 1);
        assert(digits_value(d) * 1 == digits_value(d));
    }
}

/// A valid time's text is read back as that time, when what follows it is
/// no digit and, for a time without nanoseconds, no `.`.
proof fn lemma_time_scan(s: Seq<char>, i: int, t: LocalTime, p: int)
    requires
        time_ok(t),
        text_at(s, i, time_text(t)),
        i + time_text(t).len() == s.len() || !is_digit(s[i + time_text(t).len()]),
        t.nanosecond == 0 ==> i + time_text(t).len() == s.len() || s[i + time_text(t).len()] != '.',
    ensures
        time_scan(s, i, p) == crate::grammar::TimeScan::Done(t, i + time_text(t).len()),
        time_text(t).len() >= 8,
        time_like(s, i),
{
    lemma_pow10_small();
    let h = padded_digits(t.hour as nat, 2);
    let mi = padded_digits(t.minute as nat, 2);
    let se = padded_digits(t.second as nat, 2);
    lemma_padded(t.hour as nat, 2);
    lemma_padded(t.minute as nat, 2);
    lemma_padded(t.second as nat, 2);
    let hms = h + seq![':'] + mi + seq![':'] + se;
    let tt = time_text(t);
    assert(tt.subrange(0, 8) =~= hms);
    lemma_text_sub(s, i, tt, 0, 8);
    lemma_text_sub(s, i, hms, 0, 2);
    assert(hms.subrange(0, 2) =~= h);
    lemma_text_sub(s, i, hms, 3, 5);
    assert(hms.subrange(3, 5) =~= mi);
    lemma_text_sub(s, i, hms, 6, 8);
    assert(hms.subrange(6, 8) =~= se);
    lemma_field(s, i, t.hour as nat, 2);
    lemma_field(s, i + 3, t.minute as nat, 2);
    lemma_field(s, i + 6, t.second as nat, 2);
    lemma_text_char(s, i, hms, 2);
    lemma_text_char(s, i, hms, 5);
    lemma_text_char(s, i, hms, 0);
    lemma_text_char(s, i, hms, 1);
    lemma_text_char(s, i, hms, 3);
    lemma_text_char(s, i, hms, 4);
    assert(hms[0] == h[0] && hms[1] == h[1] && hms[3] == mi[0] && hms[4] == mi[1]);
    if t.nanosecond == 0 {
        assert(tt == hms);
    } else {
        let d = padded_digits(t.nanosecond as nat, 9);
        lemma_padded(t.nanosecond as nat, 9);
        lemma_trim_value(d);
        let f = trim_zeros(d);
        let k = f.len();
        assert(tt =~= hms + seq!['.'] + f);
        lemma_text_char(s, i, tt, 8);
        lemma_text_sub(s, i, tt, 9, 9 + k as int);
        assert(tt.subrange(9, 9 + k as int) =~= f);
        assert forall|j: int| 0 <= j < k implies is_digit(#[trigger] f[j]) by {
            assert(f[j] == d[j]);
        }
        assert forall|j: int| i + 9 <= j < i + 9 + k implies is_digit(#[trigger] s[j]) by {
            lemma_text_char(s, i + 9, f, j - i - 9);
        }
        lemma_digit_count(s, i + 9, k);
        lemma_digits_scan(s, i + 9, f, 0);
        assert(0 * pow10(k) == 0);
        assert(crate::grammar::nanos_of(s, i + 9, k) == t.nanosecond);
    }
}

/// A valid offset of minutes is read back as that offset.
proof fn lemma_offset_scan(s: Seq<char>, e: int, m: i16, p: int)
    requires
        offset_ok(UtcOffset::Minutes(m)),
        text_at(s, e, offset_text(UtcOffset::Minutes(m))),
    ensures
        crate::grammar::offset_scan(s, e, p) == crate::grammar::OffsetScan::Done(UtcOffset::Minutes(m), e + 6),
        offset_text(UtcOffset::Minutes(m)).len() == 6,
{
    lemma_pow10_small();
    let a = offset_size(m);
    let hh = padded_digits(a / 60, 2);
    let mm = padded_digits(a % 60, 2);
    lemma_padded(a / 60, 2);
    lemma_padded(a % 60, 2);
    let t = offset_text(UtcOffset::Minutes(m));
    assert(t =~= seq![if m >= 0 { '+' } else { '-' }] + hh + seq![':'] + mm);
    lemma_text_char(s, e, t, 0);
    lemma_text_char(s, e, t, 3);
    lemma_text_sub(s, e, t, 1, 3);
    assert(t.subrange(1, 3) =~= hh);
    lemma_text_sub(s, e, t, 4, 6);
    assert(t.subrange(4, 6) =~= mm);
    lemma_field(s, e + 1, a / 60, 2);
    lemma_field(s, e + 4, a % 60, 2);
    assert((a / 60) * 60 + a % 60 == a);
}

proof fn lemma_date_len(d: LocalDate)
    requires
        date_ok(d),
    ensures
        date_text(d).len() == 10,
{
    lemma_pow10_small();
    lemma_padded(d.year as nat, 4);
    lemma_padded(d.month as nat, 2);
    lemma_padded(d.day as nat, 2);
}

/// A valid date, as the printer writes it, is read back as a date token.
proof fn lemma_lex_date(s: Seq<char>, p: int, d: LocalDate)
    requires
        date_ok(d),
        text_at(s, p, date_text(d)),
        ended(s, p + date_text(d).len()),
    ensures
        lex_at(s, p, false) == Lexed::Tok(TokenModel::LocalDate(d), p + date_text(d).len()),
{
    reveal(lex_at);
    lemma_date_scan(s, p, d);
    if p + 10 < s.len() {
        lemma_after_value(s, p + 10);
    }
    lemma_text_char(s, p, date_text(d), 0);
}

/// A valid time, as the printer writes it, is read back as a time token.
proof fn lemma_lex_time(s: Seq<char>, p: int, t: LocalTime)
    requires
        time_ok(t),
        text_at(s, p, time_text(t)),
        ended(s, p + time_text(t).len()),
    ensures
        lex_at(s, p, false) == Lexed::Tok(TokenModel::LocalTime(t), p + time_text(t).len()),
        time_text(t).len() >= 8,
{
    reveal(lex_at);
    let e = p + time_text(t).len();
    if e < s.len() {
        lemma_after_value(s, e);
    }
    lemma_time_scan(s, p, t, p);
    lemma_text_char(s, p, time_text(t), 0);
    lemma_text_char(s, p, time_text(t), 2);
    assert(time_text(t)[2] == ':') by {
        lemma_pow10_small();
        lemma_padded(t.hour as nat, 2);
    }
}

/// A valid date-time without an offset, as the printer writes it, is read
/// back as its token.
proof fn lemma_lex_local_datetime(s: Seq<char>, p: int, dt: LocalDateTime)
    requires
        date_ok(dt.date),
        time_ok(dt.time),
        text_at(s, p, local_datetime_text(dt)),
        ended(s, p + local_datetime_text(dt).len()),
    ensures
        lex_at(s, p, false) == Lexed::Tok(TokenModel::LocalDateTime(dt), p + local_datetime_text(dt).len()),
{
    reveal(lex_at);
    let tv = local_datetime_text(dt);
    let e = p + tv.len();
    if e < s.len() {
        lemma_after_value(s, e);
    }
    let dtext = date_text(dt.date);
    let ttext = time_text(dt.time);
    lemma_date_len(dt.date);
    assert(tv =~= dtext + seq!['T'] + ttext);
    lemma_text_sub(s, p, tv, 0, 10);
    assert(tv.subrange(0, 10) =~= dtext);
    lemma_date_scan(s, p, dt.date);
    lemma_text_char(s, p, tv, 10);
    lemma_text_sub(s, p, tv, 11, tv.len() as int);
    assert(tv.subrange(11, tv.len() as int) =~= ttext);
    lemma_time_scan(s, p + 11, dt.time, p);
    lemma_text_char(s, p, tv, 0);
}

/// A valid date-time with a valid offset, as the printer writes it, is read
/// back as its token.
proof fn lemma_lex_offset_datetime(s: Seq<char>, p: int, dt: OffsetDateTime)
    requires
        date_ok(dt.date),
        time_ok(dt.time),
        offset_ok(dt.offset),
        text_at(s, p, offset_datetime_text(dt)),
        ended(s, p + offset_datetime_text(dt).len()),
    ensures
        lex_at(s, p, false) == Lexed::Tok(TokenModel::OffsetDateTime(dt), p + offset_datetime_text(dt).len()),
{
    reveal(lex_at);
    let tv = offset_datetime_text(dt);
    let e = p + tv.len();
    let dtext = date_text(dt.date);
    let ttext = time_text(dt.time);
    let otext = offset_text(dt.offset);
    lemma_date_len(dt.date);
    assert(tv =~= dtext + seq!['T'] + ttext + otext);
    lemma_text_sub(s, p, tv, 0, 10);
    assert(tv.subrange(0, 10) =~= dtext);
    lemma_date_scan(s, p, dt.date);
    lemma_text_char(s, p, tv, 10);
    let te = 11 + ttext.len() as int;
    lemma_text_sub(s, p, tv, 11, te);
    assert(tv.subrange(11, te) =~= ttext);
    lemma_text_char(s, p, tv, te);
    lemma_text_sub(s, p, tv, te, tv.len() as int);
    assert(tv.subrange(te, tv.len() as int) =~= otext);
    match dt.offset {
        UtcOffset::Z => {
            assert(tv[te] == 'Z');
        },
        UtcOffset::Minutes(m) => {
            lemma_offset_scan(s, p + te, m, p);
            assert(tv[te] == otext[0]);
        },
    }
    lemma_time_scan(s, p + 11, dt.time, p);
    lemma_text_char(s, p, tv, 0);
}

/// A key that reads back as itself: written quoted, or plain.
pub open spec fn readable_key(k: Seq<char>) -> bool {
    !is_bare(k) || plain_key(k)
}

/// A value whose inline text the parser reads back as the same value: a
/// string, a boolean, an integer, or an array or inline table of such
/// values, whose keys are distinct and read back as themselves.
pub open spec fn readable(v: ValueModel) -> bool
    decreases v,
{
    match v {
        ValueModel::String(_) => true,
        ValueModel::Boolean(_) => true,
        ValueModel::Integer(_) => true,
        ValueModel::Float(t) => float_text(t),
        ValueModel::LocalDate(d) => date_ok(d),
        ValueModel::LocalTime(t) => time_ok(t),
        ValueModel::LocalDateTime(dt) => date_ok(dt.date) && time_ok(dt.time),
        ValueModel::OffsetDateTime(dt) => date_ok(dt.date) && time_ok(dt.time) && offset_ok(dt.offset),
        ValueModel::Array(vs) => forall|i: int| 0 <= i < vs.len() ==> readable(#[trigger] vs[i]),
        ValueModel::Table(es) => distinct_keys(es) && forall|i: int|
            0 <= i < es.len() ==> readable_key(#[trigger] es[i].0) && readable(es[i].1),
        _ => false,
    }
}

/// The reader at `p`, with nothing held back, not in key mode.
pub open spec fn at(p: int) -> LexState {
    LexState { pos: p, peeked: None, key_mode: false }
}

/// From `st`, the next token is the one that starts at `p`: either only
/// spaces lie between `st`'s position and `p`, or that token is held back.
pub open spec fn ready(s: Seq<char>, st: LexState, p: int) -> bool {
    ||| (st.peeked is None && !st.key_mode && 0 <= st.pos <= p && forall|j: int| st.pos <= j < p ==> s[j] == ' ')
    ||| (st.peeked is Some && !st.key_mode && lex_at(s, p, false) == Lexed::Tok(st.peeked.unwrap(), st.pos)
        && weight(st.peeked.unwrap()) >= 1 && st.pos > p)
}

pub(crate) proof fn lemma_lex_spaces(s: Seq<char>, a: int, p: int, key_mode: bool)
    requires
        0 <= a <= p < s.len(),
        forall|j: int| a <= j < p ==> s[j] == ' ',
    ensures
        lex_at(s, a, key_mode) == lex_at(s, p, key_mode),
    decreases p - a,
{
    if a < p {
        lemma_lex_space(s, a, key_mode);
        lemma_lex_spaces(s, a + 1, p, key_mode);
    }
}

/// From a ready state, the next token is the one at `p`; taking it leaves
/// the reader just after it, with a smaller measure; looking at it holds it
/// back.
pub(crate) proof fn lemma_ready(s: Seq<char>, st: LexState, p: int, t: TokenModel, e: int)
    requires
        ready(s, st, p),
        0 <= p < e <= s.len(),
        lex_at(s, p, false) == Lexed::Tok(t, e),
        weight(t) >= 1,
    ensures
        next_tok(s, st) == Ok::<(TokenModel, LexState), (Option<int>, Seq<char>)>((t, at(e))),
        peek_tok(s, st) == Ok::<(TokenModel, LexState), (Option<int>, Seq<char>)>((t, LexState { pos: e, peeked: Some(t), key_mode: false })),
        shrinks(s, at(e), st),
        no_growth(s, LexState { pos: e, peeked: Some(t), key_mode: false }, st),
{
    if st.peeked is None {
        lemma_lex_spaces(s, st.pos, p, false);
    }
}

/// The first token of a readable value's text, and where it ends.
pub open spec fn first_token(v: ValueModel) -> TokenModel {
    match v {
        ValueModel::String(x) => TokenModel::BasicString(x),
        ValueModel::Boolean(b) => TokenModel::Boolean(b),
        ValueModel::Integer(n) => TokenModel::Integer(n),
        ValueModel::Float(t) => TokenModel::Float(t),
        ValueModel::LocalDate(d) => TokenModel::LocalDate(d),
        ValueModel::LocalTime(t) => TokenModel::LocalTime(t),
        ValueModel::LocalDateTime(d) => TokenModel::LocalDateTime(d),
        ValueModel::OffsetDateTime(d) => TokenModel::OffsetDateTime(d),
        ValueModel::Array(_) => TokenModel::LBracket,
        _ => TokenModel::LBrace,
    }
}

pub open spec fn first_token_end(v: ValueModel, p: int) -> int {
    match v {
        ValueModel::Array(_) => p + 1,
        ValueModel::Table(_) => p + 1,
        _ => p + inline_text(v).len(),
    }
}

/// The text of a readable value, in `s` at `p`.
pub open spec fn text_at(s: Seq<char>, p: int, t: Seq<char>) -> bool {
    0 <= p && p + t.len() <= s.len() && s.subrange(p, p + t.len()) == t
}

/// What follows the text of a value ends it.
pub open spec fn ended(s: Seq<char>, e: int) -> bool {
    e == s.len() || (value_end_char(s[e]) && (s[e] == ' ' ==> e + 1 == s.len() || !is_digit(s[e + 1])))
}

pub(crate) proof fn lemma_text_char(s: Seq<char>, p: int, t: Seq<char>, i: int)
    requires
        text_at(s, p, t),
        0 <= i < t.len(),
    ensures
        s[p + i] == t[i],
{
    assert(s.subrange(p, p + t.len())[i] == s[p + i]);
}

pub(crate) proof fn lemma_text_sub(s: Seq<char>, p: int, t: Seq<char>, a: int, b: int)
    requires
        text_at(s, p, t),
        0 <= a <= b <= t.len(),
    ensures
        text_at(s, p + a, t.subrange(a, b)),
{
    assert forall|i: int| 0 <= i < b - a implies #[trigger] s.subrange(p + a, p + b)[i] == t.subrange(a, b)[i] by {
        lemma_text_char(s, p, t, a + i);
    }
    assert(s.subrange(p + a, p + b) =~= t.subrange(a, b));
}

/// A readable value's first token is read where its text starts.
proof fn lemma_first_token(s: Seq<char>, p: int, v: ValueModel)
    requires
        readable(v),
        text_at(s, p, inline_text(v)),
        ended(s, p + inline_text(v).len()),
    ensures
        lex_at(s, p, false) == Lexed::Tok(first_token(v), first_token_end(v, p)),
        p < first_token_end(v, p) <= p + inline_text(v).len(),
        weight(first_token(v)) == 1,
        first_token(v) != TokenModel::Newline,
        first_token(v) != TokenModel::RBracket,
        first_token(v) != TokenModel::DoubleRBracket,
        first_token(v) != TokenModel::RBrace,
{
    let t = inline_text(v);
    let e = p + t.len();
    match v {
        ValueModel::String(x) => {
            lemma_lex_string(s, p, x, false);
        },
        ValueModel::Boolean(b) => {
            assert(t == bool_text(b));
            lemma_lex_bool(s, p, b, false);
        },
        ValueModel::Integer(n) => {
            lemma_lex_int(s, p, n, false);
            crate::roundtrip::lemma_nat_digits_len(n);
        },
        ValueModel::Float(x) => {
            lemma_lex_float(s, p, x);
            assert(x.len() >= 1);
        },
        ValueModel::LocalDate(d) => {
            lemma_lex_date(s, p, d);
            lemma_date_len(d);
        },
        ValueModel::LocalTime(x) => {
            lemma_lex_time(s, p, x);
        },
        ValueModel::LocalDateTime(d) => {
            lemma_lex_local_datetime(s, p, d);
        },
        ValueModel::OffsetDateTime(d) => {
            lemma_lex_offset_datetime(s, p, d);
        },
        ValueModel::Array(vs) => {
            lemma_text_char(s, p, t, 0);
            lemma_text_char(s, p, t, 1);
            lemma_lex_punct(s, p, false);
        },
        ValueModel::Table(es) => {
            lemma_text_char(s, p, t, 0);
            lemma_lex_punct(s, p, false);
        },
        _ => {},
    }
}

proof fn lemma_nat_digits_len(n: i64)
    ensures
        decimal_digits(n as int).len() >= 1,
{
    let m: nat = if n < 0 { (-(n as int)) as nat } else { n as nat };
    lemma_nat_digits(m);
}

/// Where element `k` of an inline array starts, in the text of its items.
pub open spec fn item_start(vs: Seq<ValueModel>, k: nat) -> int {
    items_text(vs, k).len() + if k >= 1 { 2int } else { 0int }
}

proof fn lemma_items_prefix(vs: Seq<ValueModel>, j: nat, m: nat)
    requires
        j <= m <= vs.len(),
    ensures
        items_text(vs, j).len() <= items_text(vs, m).len(),
        items_text(vs, m).subrange(0, items_text(vs, j).len() as int) == items_text(vs, j),
    decreases m,
{
    if j < m {
        lemma_items_prefix(vs, j, (m - 1) as nat);
        let a = items_text(vs, (m - 1) as nat);
        let b = items_text(vs, m);
        assert(b.subrange(0, a.len() as int) =~= a);
        assert(b.subrange(0, items_text(vs, j).len() as int) =~= a.subrange(0, items_text(vs, j).len() as int));
    } else {
        assert(items_text(vs, m).subrange(0, items_text(vs, m).len() as int) =~= items_text(vs, m));
    }
}

/// The text of an inline array around its element `k`.
proof fn lemma_array_text(vs: Seq<ValueModel>, k: nat)
    requires
        k < vs.len(),
    ensures
        ({
            let t = inline_text(ValueModel::Array(vs));
            let a = 2 + item_start(vs, k);
            let b = 2 + items_text(vs, (k + 1) as nat).len() as int;
            &&& a + inline_text(vs[k as int]).len() == b
            &&& b + 2 <= t.len()
            &&& t.subrange(a, b) == inline_text(vs[k as int])
            &&& (k >= 1 ==> t[items_text(vs, k).len() as int + 2] == ',' && t[items_text(vs, k).len() as int + 3] == ' ')
            &&& (k == 0 ==> t[1] == ' ')
            &&& (k + 1 < vs.len() ==> t[b] == ',')
            &&& (k + 1 == vs.len() ==> t[b] == ' ' && t[b + 1] == ']' && t.len() == b + 2)
        }),
{
    let t = inline_text(ValueModel::Array(vs));
    let n = vs.len();
    let all = items_text(vs, n);
    let i0 = items_text(vs, k);
    let i1 = items_text(vs, (k + 1) as nat);
    let e = inline_text(vs[k as int]);
    assert(i1 =~= (if k >= 1 { i0 + seq![',', ' '] } else { i0 }) + e);
    lemma_items_prefix(vs, (k + 1) as nat, n);
    assert(t =~= seq!['[', ' '] + all + seq![' ', ']']);
    let a = 2 + item_start(vs, k);
    let b = 2 + i1.len() as int;
    assert forall|i: int| 0 <= i < e.len() implies #[trigger] t.subrange(a, b)[i] == e[i] by {
        assert(t[a + i] == all[a - 2 + i]);
        assert(all[a - 2 + i] == i1[a - 2 + i]);
    }
    assert(t.subrange(a, b) =~= e);
    if k >= 1 {
        assert(t[i0.len() as int + 2] == all[i0.len() as int]);
        assert(all[i0.len() as int] == i1[i0.len() as int]);
        assert(t[i0.len() as int + 3] == all[i0.len() as int + 1]);
        assert(all[i0.len() as int + 1] == i1[i0.len() as int + 1]);
    }
    if k + 1 < n {
        let i2 = items_text(vs, (k + 2) as nat);
        lemma_items_prefix(vs, (k + 2) as nat, n);
        assert(i2 =~= i1 + seq![',', ' '] + inline_text(vs[k as int + 1]));
        assert(t[b] == all[i1.len() as int]);
        assert(all[i1.len() as int] == i2[i1.len() as int]);
    }
}

/// The rest of an inline array from element `k`, whose elements before it
/// have been read and whose comma before it has been taken, is read as the
/// whole array.
proof fn lemma_array_reads_back(s: Seq<char>, p: int, vs: Seq<ValueModel>, k: nat)
    requires
        forall|i: int| 0 <= i < vs.len() ==> readable(#[trigger] vs[i]),
        text_at(s, p, inline_text(ValueModel::Array(vs))),
        ended(s, p + inline_text(ValueModel::Array(vs)).len()),
        k < vs.len() || (k == 0 && vs.len() == 0),
    ensures
        array_spec(s, at(if k == 0 { p + 1 } else { p + 3 + items_text(vs, k).len() as int }), vs.take(k as int))
            == Ok::<(ValueModel, LexState), (Option<int>, Seq<char>)>((ValueModel::Array(vs), at(p + inline_text(ValueModel::Array(vs)).len()))),
    decreases vs, vs.len() - k, 0nat,
{
    let t = inline_text(ValueModel::Array(vs));
    let q = if k == 0 { p + 1 } else { p + 3 + items_text(vs, k).len() as int };
    let n = vs.len();
    if n == 0 {
        assert(items_text(vs, 0) == Seq::<char>::empty());
        assert(t =~= seq!['[', ' ', ' ', ']']);
        lemma_text_char(s, p, t, 1);
        lemma_text_char(s, p, t, 2);
        lemma_text_char(s, p, t, 3);
        lemma_lex_spaces(s, p + 1, p + 3, false);
        lemma_lex_punct(s, p + 3, false);
        assert(vs.take(0) =~= vs);
        let st1 = LexState { pos: p + 4, peeked: Some(TokenModel::RBracket), key_mode: false };
        assert(peek_tok(s, at(q)) == Ok::<(TokenModel, LexState), (Option<int>, Seq<char>)>((TokenModel::RBracket, st1)));
        assert(skip_newlines(s, at(q)) == Ok::<LexState, (Option<int>, Seq<char>)>(st1));
    } else {
        lemma_array_text(vs, k);
        let r = p + 2 + item_start(vs, k);
        let v = vs[k as int];
        let ev = inline_text(v);
        let f = p + 2 + items_text(vs, (k + 1) as nat).len() as int;
        // The space before element `k`.
        if k == 0 {
            lemma_text_char(s, p, t, 1);
        } else {
            lemma_text_char(s, p, t, items_text(vs, k).len() as int + 3);
        }
        assert(s[q] == ' ');
        lemma_text_sub(s, p, t, r - p, f - p);
        lemma_text_char(s, p, t, f - p);
        assert(ended(s, f));
        lemma_first_token(s, r, v);
        let t0 = first_token(v);
        let e0 = first_token_end(v, r);
        assert(ready(s, at(q), r));
        lemma_ready(s, at(q), r, t0, e0);
        let st2 = LexState { pos: e0, peeked: Some(t0), key_mode: false };
        assert(skip_newlines(s, at(q)) == Ok::<LexState, (Option<int>, Seq<char>)>(st2));
        assert(peek_tok(s, st2) == Ok::<(TokenModel, LexState), (Option<int>, Seq<char>)>((t0, st2)));
        assert(ready(s, st2, r));
        lemma_value_reads_back(s, r, v, st2);
        if k + 1 < n {
            lemma_lex_punct(s, f, false);
            let st4 = LexState { pos: f + 1, peeked: Some(TokenModel::Comma), key_mode: false };
            assert(peek_tok(s, at(f)) == Ok::<(TokenModel, LexState), (Option<int>, Seq<char>)>((TokenModel::Comma, st4)));
            assert(skip_newlines(s, at(f)) == Ok::<LexState, (Option<int>, Seq<char>)>(st4));
            assert(next_tok(s, st4) == Ok::<(TokenModel, LexState), (Option<int>, Seq<char>)>((TokenModel::Comma, at(f + 1))));
            assert(vs.take(k as int).push(v) =~= vs.take(k as int + 1));
            lemma_array_reads_back(s, p, vs, (k + 1) as nat);
        } else {
            lemma_text_char(s, p, t, f + 1 - p);
            lemma_lex_space(s, f, false);
            if f + 2 < s.len() {
                assert(s[f + 2] != ']');
            }
            lemma_lex_punct(s, f + 1, false);
            let st4 = LexState { pos: f + 2, peeked: Some(TokenModel::RBracket), key_mode: false };
            assert(peek_tok(s, at(f)) == Ok::<(TokenModel, LexState), (Option<int>, Seq<char>)>((TokenModel::RBracket, st4)));
            assert(skip_newlines(s, at(f)) == Ok::<LexState, (Option<int>, Seq<char>)>(st4));
            assert(vs.take(k as int).push(v) =~= vs);
        }
    }
}

/// The inline text of a readable value, from a state ready to read it, is
/// read back as the value, leaving the reader just after it.
pub(crate) proof fn lemma_value_reads_back(s: Seq<char>, p: int, v: ValueModel, st: LexState)
    requires
        readable(v),
        text_at(s, p, inline_text(v)),
        ended(s, p + inline_text(v).len()),
        ready(s, st, p),
    ensures
        value_spec(s, st) == Ok::<(ValueModel, LexState), (Option<int>, Seq<char>)>((v, at(p + inline_text(v).len()))),
    decreases v, 0nat, 0nat,
{
    lemma_first_token(s, p, v);
    let t0 = first_token(v);
    let e0 = first_token_end(v, p);
    lemma_ready(s, st, p, t0, e0);
    match v {
        ValueModel::Array(vs) => {
            assert(decreases_to!(v => vs));
            lemma_array_reads_back(s, p, vs, 0);
            assert(vs.take(0) =~= Seq::<ValueModel>::empty());
        },
        ValueModel::Table(es) => {
            assert(decreases_to!(v => es));
            let t = inline_text(v);
            if es.len() == 0 {
                assert(pairs_text(es, 0) == Seq::<char>::empty());
                assert(t =~= seq!['{', ' ', ' ', '}']);
                lemma_text_char(s, p, t, 1);
                lemma_text_char(s, p, t, 2);
                lemma_text_char(s, p, t, 3);
                lemma_lex_spaces(s, p + 1, p + 3, true);
                lemma_lex_punct(s, p + 3, true);
                let st1 = LexState { pos: p + 4, peeked: Some(TokenModel::RBrace), key_mode: true };
                assert(peek_tok(s, with_key_mode(at(p + 1), true)) == Ok::<(TokenModel, LexState), (Option<int>, Seq<char>)>((TokenModel::RBrace, st1)));
                assert(es =~= Seq::<(Seq<char>, ValueModel)>::empty());
            } else {
                lemma_table_text(es, 0);
                lemma_text_char(s, p, t, 1);
                let a = p + 2 + pair_start(es, 0);
                let key = es[0].0;
                let kt = key_text(key);
                lemma_text_sub(s, p, t, a - p, a - p + kt.len());
                lemma_text_char(s, p, t, a - p + kt.len());
                lemma_lex_key(s, a, key, true);
                lemma_lex_space(s, p + 1, true);
                let st1 = LexState { pos: a + kt.len(), peeked: Some(key_token(key)), key_mode: true };
                assert(peek_tok(s, with_key_mode(at(p + 1), true)) == Ok::<(TokenModel, LexState), (Option<int>, Seq<char>)>((key_token(key), st1)));
                assert(node_of(es, 0) =~= Seq::<(Seq<char>, TrackedModel)>::empty());
                lemma_pairs_reads_back(s, p, es, 0);
            }
        },
        _ => {},
    }
}

/// The token a readable key is read as.
pub open spec fn key_token(k: Seq<char>) -> TokenModel {
    if is_bare(k) {
        TokenModel::BareKey(k)
    } else {
        TokenModel::BasicString(k)
    }
}

/// A readable key, followed by a space, is read as its token, which names
/// it.
pub(crate) proof fn lemma_lex_key(s: Seq<char>, a: int, k: Seq<char>, key_mode: bool)
    requires
        key_mode,
        readable_key(k),
        text_at(s, a, key_text(k)),
        a + key_text(k).len() < s.len(),
        !bare_key_char(s[a + key_text(k).len()]),
        s[a + key_text(k).len()] != '"',
    ensures
        lex_at(s, a, key_mode) == Lexed::Tok(key_token(k), a + key_text(k).len()),
        key_of(key_token(k)) == Some(k),
        weight(key_token(k)) == 1,
        key_text(k).len() >= 1,
{
    if is_bare(k) {
        lemma_lex_bare_key(s, a, k, key_mode);
    } else {
        lemma_lex_string(s, a, k, key_mode);
    }
}

/// Where entry `k` of an inline table starts, in the text of its pairs.
pub open spec fn pair_start(es: Seq<(Seq<char>, ValueModel)>, k: nat) -> int {
    pairs_text(es, k).len() + if k >= 1 { 2int } else { 0int }
}

proof fn lemma_pairs_prefix(es: Seq<(Seq<char>, ValueModel)>, j: nat, m: nat)
    requires
        j <= m <= es.len(),
    ensures
        pairs_text(es, j).len() <= pairs_text(es, m).len(),
        pairs_text(es, m).subrange(0, pairs_text(es, j).len() as int) == pairs_text(es, j),
    decreases m,
{
    if j < m {
        lemma_pairs_prefix(es, j, (m - 1) as nat);
        let a = pairs_text(es, (m - 1) as nat);
        let b = pairs_text(es, m);
        assert(b.subrange(0, a.len() as int) =~= a);
        assert(b.subrange(0, pairs_text(es, j).len() as int) =~= a.subrange(0, pairs_text(es, j).len() as int));
    } else {
        assert(pairs_text(es, m).subrange(0, pairs_text(es, m).len() as int) =~= pairs_text(es, m));
    }
}

/// The text of an inline table around its entry `k`.
proof fn lemma_table_text(es: Seq<(Seq<char>, ValueModel)>, k: nat)
    requires
        k < es.len(),
    ensures
        ({
            let t = inline_text(ValueModel::Table(es));
            let a = 2 + pair_start(es, k);
            let c = a + key_text(es[k as int].0).len();
            let b = 2 + pairs_text(es, (k + 1) as nat).len() as int;
            &&& c + 3 + inline_text(es[k as int].1).len() == b
            &&& b + 2 <= t.len()
            &&& t.subrange(a, c) == key_text(es[k as int].0)
            &&& t[c] == ' ' && t[c + 1] == '=' && t[c + 2] == ' '
            &&& t.subrange(c + 3, b) == inline_text(es[k as int].1)
            &&& (k >= 1 ==> t[pairs_text(es, k).len() as int + 2] == ',' && t[pairs_text(es, k).len() as int + 3] == ' ')
            &&& (k == 0 ==> t[1] == ' ')
            &&& (k + 1 < es.len() ==> t[b] == ',')
            &&& (k + 1 == es.len() ==> t[b] == ' ' && t[b + 1] == '}' && t.len() == b + 2)
        }),
{
    let t = inline_text(ValueModel::Table(es));
    let n = es.len();
    let all = pairs_text(es, n);
    let i0 = pairs_text(es, k);
    let i1 = pairs_text(es, (k + 1) as nat);
    let kt = key_text(es[k as int].0);
    let ev = inline_text(es[k as int].1);
    assert(decreases_to!(es => es[k as int]));
    assert(i1 =~= (if k >= 1 { i0 + seq![',', ' '] } else { i0 }) + kt + seq![' ', '=', ' '] + ev);
    lemma_pairs_prefix(es, (k + 1) as nat, n);
    assert(t =~= seq!['{', ' '] + all + seq![' ', '}']);
    let a = 2 + pair_start(es, k);
    let c = a + kt.len();
    let b = 2 + i1.len() as int;
    assert forall|i: int| 0 <= i < kt.len() implies #[trigger] t.subrange(a, c)[i] == kt[i] by {
        assert(t[a + i] == all[a - 2 + i]);
        assert(all[a - 2 + i] == i1[a - 2 + i]);
    }
    assert(t.subrange(a, c) =~= kt);
    assert forall|i: int| 0 <= i < ev.len() implies #[trigger] t.subrange(c + 3, b)[i] == ev[i] by {
        assert(t[c + 3 + i] == all[c + 1 + i]);
        assert(all[c + 1 + i] == i1[c + 1 + i]);
    }
    assert(t.subrange(c + 3, b) =~= ev);
    assert(t[c] == all[c - 2]);
    assert(all[c - 2] == i1[c - 2]);
    assert(t[c + 1] == all[c - 1]);
    assert(all[c - 1] == i1[c - 1]);
    assert(t[c + 2] == all[c as int]);
    assert(all[c as int] == i1[c as int]);
    if k >= 1 {
        assert(t[i0.len() as int + 2] == all[i0.len() as int]);
        assert(all[i0.len() as int] == i1[i0.len() as int]);
        assert(t[i0.len() as int + 3] == all[i0.len() as int + 1]);
        assert(all[i0.len() as int + 1] == i1[i0.len() as int + 1]);
    }
    if k + 1 < n {
        let i2 = pairs_text(es, (k + 2) as nat);
        lemma_pairs_prefix(es, (k + 2) as nat, n);
        assert(decreases_to!(es => es[k as int + 1]));
        assert(i2 =~= i1 + seq![',', ' '] + key_text(es[k as int + 1].0) + seq![' ', '=', ' '] + inline_text(es[k as int + 1].1));
        assert(t[b] == all[i1.len() as int]);
        assert(all[i1.len() as int] == i2[i1.len() as int]);
    }
}

/// The node of an inline table holding its first `k` entries.
pub open spec fn node_of(es: Seq<(Seq<char>, ValueModel)>, k: nat) -> NodeModel {
    Seq::new(k, |i: int| (es[i].0, TrackedModel::Defined(es[i].1)))
}

/// Adding entry `k` of a table with distinct keys to the node of its first
/// `k` entries succeeds.
proof fn lemma_inline_insert(es: Seq<(Seq<char>, ValueModel)>, k: nat, inl: bool)
    requires
        distinct_keys(es),
        k < es.len(),
    ensures
        insert_spec(seq![node_of(es, k)], 0, seq![es[k as int].0], es[k as int].1, inl)
            == Some(seq![node_of(es, (k + 1) as nat)]),
{
    let key = es[k as int].0;
    let v = es[k as int].1;
    let nk = seq![node_of(es, k)];
    lemma_find_key(node_of(es, k), key);
    assert(find_key(node_of(es, k), key) is None) by {
        if let Some(i) = find_key(node_of(es, k), key) {
            assert(node_of(es, k)[i].0 == es[i].0);
        }
    }
    assert(seq![key].drop_last() =~= Seq::<Seq<char>>::empty());
    assert(walk(nk, 0, seq![key].drop_last(), inl) == Some((nk, 0int)));
    assert(seq![key].last() == key);
    assert(node_of(es, k).push((key, TrackedModel::Defined(v))) =~= node_of(es, (k + 1) as nat));
    assert(nk.update(0, nk[0].push((key, TrackedModel::Defined(v)))) =~= seq![node_of(es, (k + 1) as nat)]);
}

/// The entries of an inline table from entry `k`, the first `k` having been
/// read and the key of entry `k` being held back, are read as the whole
/// table.
proof fn lemma_pairs_reads_back(s: Seq<char>, p: int, es: Seq<(Seq<char>, ValueModel)>, k: nat)
    requires
        distinct_keys(es),
        forall|i: int| 0 <= i < es.len() ==> readable_key(#[trigger] es[i].0) && readable(es[i].1),
        text_at(s, p, inline_text(ValueModel::Table(es))),
        ended(s, p + inline_text(ValueModel::Table(es)).len()),
        k < es.len(),
    ensures
        inline_pairs(
            s,
            LexState {
                pos: p + 2 + pair_start(es, k) + key_text(es[k as int].0).len(),
                peeked: Some(key_token(es[k as int].0)),
                key_mode: false,
            },
            seq![node_of(es, k)],
        ) == Ok::<(ValueModel, LexState), (Option<int>, Seq<char>)>((ValueModel::Table(es), at(p + inline_text(ValueModel::Table(es)).len()))),
    decreases es, es.len() - k, 0nat,
{
    let t = inline_text(ValueModel::Table(es));
    let n = es.len();
    lemma_table_text(es, k);
    let key = es[k as int].0;
    let v = es[k as int].1;
    let kt = key_text(key);
    let a = p + 2 + pair_start(es, k);
    let c = a + kt.len();
    let b = p + 2 + pairs_text(es, (k + 1) as nat).len() as int;
    let st = LexState { pos: c, peeked: Some(key_token(key)), key_mode: false };
    lemma_text_sub(s, p, t, a - p, c - p);
    lemma_text_char(s, p, t, c - p);
    lemma_text_char(s, p, t, c - p + 1);
    lemma_text_char(s, p, t, c - p + 2);
    lemma_lex_key(s, a, key, true);
    // The key, then ` = `.
    lemma_lex_space(s, c, true);
    lemma_lex_punct(s, c + 1, true);
    let st1 = LexState { pos: c + 2, peeked: Some(TokenModel::Equals), key_mode: false };
    assert(key_spec(s, st) == Ok::<(Seq<Seq<char>>, LexState), (Option<int>, Seq<char>)>((seq![key], st1)));
    assert(expect_tok(s, st1, TokenModel::Equals) == Ok::<LexState, (Option<int>, Seq<char>)>(at(c + 2)));
    // The value.
    lemma_text_sub(s, p, t, c + 3 - p, b - p);
    lemma_text_char(s, p, t, b - p);
    assert(decreases_to!(es => es[k as int]));
    assert(decreases_to!(es[k as int] => es[k as int].1));
    assert(ready(s, at(c + 2), c + 3));
    lemma_value_reads_back(s, c + 3, v, at(c + 2));
    // The entry is added to the table.
    let nk = seq![node_of(es, k)];
    let nk1 = seq![node_of(es, (k + 1) as nat)];
    lemma_inline_insert(es, k, true);
    if k + 1 < n {
        lemma_lex_punct(s, b, false);
        let st4 = LexState { pos: b + 1, peeked: Some(TokenModel::Comma), key_mode: false };
        assert(peek_tok(s, at(b)) == Ok::<(TokenModel, LexState), (Option<int>, Seq<char>)>((TokenModel::Comma, st4)));
        lemma_table_text(es, (k + 1) as nat);
        let a2 = p + 2 + pair_start(es, (k + 1) as nat);
        let key2 = es[k as int + 1].0;
        let kt2 = key_text(key2);
        lemma_text_char(s, p, t, b + 1 - p);
        lemma_text_sub(s, p, t, a2 - p, a2 - p + kt2.len());
        lemma_text_char(s, p, t, a2 - p + kt2.len());
        lemma_lex_key(s, a2, key2, true);
        lemma_lex_space(s, b + 1, true);
        let st6 = LexState { pos: a2 + kt2.len(), peeked: Some(key_token(key2)), key_mode: true };
        assert(peek_tok(s, with_key_mode(at(b + 1), true)) == Ok::<(TokenModel, LexState), (Option<int>, Seq<char>)>((key_token(key2), st6)));
        lemma_pairs_reads_back(s, p, es, (k + 1) as nat);
    } else {
        lemma_text_char(s, p, t, b + 1 - p);
        lemma_lex_space(s, b, false);
        lemma_lex_punct(s, b + 1, false);
        let st4 = LexState { pos: b + 2, peeked: Some(TokenModel::RBrace), key_mode: false };
        assert(peek_tok(s, at(b)) == Ok::<(TokenModel, LexState), (Option<int>, Seq<char>)>((TokenModel::RBrace, st4)));
        crate::tracker::lemma_node_entries(nk1, 0, n);
        assert(tree_model(nk1, 0) =~= es);
    }
}

/// What the printer writes for a value inline, the parser reads back as
/// the same value: for strings, booleans, integers, and arrays and inline
/// tables of them whose keys are distinct and read back as keys (written
/// quoted, or bare starting with a letter or `_`). The text may be followed
/// by the end of input, a
/// comma, a newline, or a space not followed by a digit.
pub proof fn law_inline_value_reads_back(pre: Seq<char>, v: ValueModel, rest: Seq<char>)
    requires
        readable(v),
        value_end(rest),
    ensures
        value_spec(pre + inline_text(v) + rest, at(pre.len() as int))
            == Ok::<(ValueModel, LexState), (Option<int>, Seq<char>)>((v, at((pre.len() + inline_text(v).len()) as int))),
{
    let t = inline_text(v);
    let s = pre + t + rest;
    let p = pre.len() as int;
    assert(s.subrange(p, p + t.len()) =~= t);
    if p + t.len() < s.len() {
        assert(s[p + t.len()] == rest[0]);
        if rest.len() > 1 {
            assert(s[p + t.len() + 1] == rest[1]);
        }
    }
    lemma_value_reads_back(s, p, v, at(p));
}

/// A table whose entries are all written on `key = value` lines: its
/// values are written inline and read back, and its keys are distinct and
/// read back.
pub open spec fn flat(es: Seq<(Seq<char>, ValueModel)>) -> bool {
    &&& distinct_keys(es)
    &&& forall|i: int| 0 <= i < es.len() ==> readable_key(#[trigger] es[i].0) && readable(es[i].1) && is_inline(es[i].1)
}

/// The line the printer writes for entry `e`.
pub open spec fn line_text(e: (Seq<char>, ValueModel)) -> Seq<char> {
    key_text(e.0) + seq![' ', '=', ' '] + inline_text(e.1) + seq!['\n']
}

proof fn lemma_flat_passes(es: Seq<(Seq<char>, ValueModel)>, o: Seq<char>, k: nat)
    requires
        flat(es),
        k <= es.len(),
    ensures
        subtables_text(o, es, Seq::empty(), k) == o,
        aots_text(o, es, Seq::empty(), k) == o,
    decreases k,
{
    if k > 0 {
        lemma_flat_passes(es, o, (k - 1) as nat);
        assert(is_inline(es[k - 1].1));
    }
}

proof fn lemma_scalars_prefix(es: Seq<(Seq<char>, ValueModel)>, j: nat, m: nat)
    requires
        flat(es),
        j <= m <= es.len(),
    ensures
        scalars_text(Seq::empty(), es, j).len() <= scalars_text(Seq::empty(), es, m).len(),
        scalars_text(Seq::empty(), es, m).subrange(0, scalars_text(Seq::empty(), es, j).len() as int)
            == scalars_text(Seq::empty(), es, j),
        j < m ==> scalars_text(Seq::empty(), es, (j + 1) as nat) == scalars_text(Seq::empty(), es, j) + line_text(es[j as int]),
    decreases m,
{
    let e = Seq::<char>::empty();
    if j < m {
        lemma_scalars_prefix(es, j, (m - 1) as nat);
        let a = scalars_text(e, es, (m - 1) as nat);
        let b = scalars_text(e, es, m);
        assert(is_inline(es[m - 1].1));
        assert(b =~= a + line_text(es[m - 1]));
        assert(b.subrange(0, a.len() as int) =~= a);
        assert(b.subrange(0, scalars_text(e, es, j).len() as int) =~= a.subrange(0, scalars_text(e, es, j).len() as int));
        assert(is_inline(es[j as int].1));
    } else {
        assert(scalars_text(e, es, m).subrange(0, scalars_text(e, es, m).len() as int) =~= scalars_text(e, es, m));
    }
}

/// Line `k` of a flat table's text.
proof fn lemma_line_at(s: Seq<char>, es: Seq<(Seq<char>, ValueModel)>, k: nat)
    requires
        flat(es),
        s == scalars_text(Seq::empty(), es, es.len()),
        k < es.len(),
    ensures
        text_at(s, scalars_text(Seq::empty(), es, k).len() as int, line_text(es[k as int])),
        scalars_text(Seq::empty(), es, (k + 1) as nat).len() == scalars_text(Seq::empty(), es, k).len() + line_text(es[k as int]).len(),
{
    let e = Seq::<char>::empty();
    lemma_scalars_prefix(es, k, es.len());
    lemma_scalars_prefix(es, (k + 1) as nat, es.len());
    let a = scalars_text(e, es, k);
    let b = scalars_text(e, es, (k + 1) as nat);
    let pos = a.len() as int;
    let line = line_text(es[k as int]);
    assert forall|i: int| 0 <= i < line.len() implies #[trigger] s.subrange(pos, pos + line.len())[i] == line[i] by {
        assert(s[pos + i] == b[pos + i]);
        assert(b[pos + i] == line[i]);
    }
    assert(s.subrange(pos, pos + line.len()) =~= line);
}

/// A `key = value` line at `pos`, read from the start of the line: the
/// states the reader goes through.
#[verifier::rlimit(80)]
pub(crate) proof fn lemma_keyval_line(s: Seq<char>, pos: int, key: Seq<char>, v: ValueModel)
    requires
        readable_key(key),
        readable(v),
        text_at(s, pos, line_text((key, v))),
    ensures
        ({
            let c = pos + key_text(key).len();
            let f = c + 3 + inline_text(v).len();
            let st1 = LexState { pos: c, peeked: Some(key_token(key)), key_mode: true };
            let st2 = LexState { pos: c + 2, peeked: Some(TokenModel::Equals), key_mode: false };
            &&& f + 1 == pos + line_text((key, v)).len()
            &&& skip_newlines(s, with_key_mode(at(pos), true)) == Ok::<LexState, (Option<int>, Seq<char>)>(st1)
            &&& peek_tok(s, st1) == Ok::<(TokenModel, LexState), (Option<int>, Seq<char>)>((key_token(key), st1))
            &&& key_spec(s, st1) == Ok::<(Seq<Seq<char>>, LexState), (Option<int>, Seq<char>)>((seq![key], st2))
            &&& expect_tok(s, st2, TokenModel::Equals) == Ok::<LexState, (Option<int>, Seq<char>)>(at(c + 2))
            &&& value_spec(s, at(c + 2)) == Ok::<(ValueModel, LexState), (Option<int>, Seq<char>)>((v, at(f)))
            &&& newline_or_eof(s, at(f)) == Ok::<LexState, (Option<int>, Seq<char>)>(at(f + 1))
            &&& key_token(key) != TokenModel::Eof
            &&& key_token(key) != TokenModel::LBracket
            &&& key_token(key) != TokenModel::DoubleLBracket
        }),
{
    let line = line_text((key, v));
    let kt = key_text(key);
    let c = pos + kt.len();
    let f = c + 3 + inline_text(v).len();
    assert(line =~= kt + seq![' ', '=', ' '] + inline_text(v) + seq!['\n']);
    lemma_text_sub(s, pos, line, 0, kt.len() as int);
    assert(line.subrange(0, kt.len() as int) =~= kt);
    lemma_text_char(s, pos, line, kt.len() as int);
    lemma_text_char(s, pos, line, kt.len() as int + 1);
    lemma_text_char(s, pos, line, kt.len() as int + 2);
    lemma_text_sub(s, pos, line, kt.len() as int + 3, line.len() - 1);
    assert(line.subrange(kt.len() as int + 3, line.len() - 1) =~= inline_text(v));
    lemma_text_char(s, pos, line, line.len() - 1);
    lemma_lex_key(s, pos, key, true);
    lemma_lex_space(s, c, true);
    lemma_lex_punct(s, c + 1, true);
    assert(ready(s, at(c + 2), c + 3));
    lemma_value_reads_back(s, c + 3, v, at(c + 2));
    reveal(lex_at);
    assert(skip_trivia(s, f) == Trivia::Next(f));
}

/// The lines of a flat table from line `k` on, the first `k` entries being
/// in the root table, are read as the whole table.
proof fn lemma_flat_lines(s: Seq<char>, es: Seq<(Seq<char>, ValueModel)>, k: nat)
    requires
        flat(es),
        s == scalars_text(Seq::empty(), es, es.len()),
        k <= es.len(),
    ensures
        document_spec(s, at(scalars_text(Seq::empty(), es, k).len() as int), seq![node_of(es, k)], Seq::empty())
            == Ok::<Seq<NodeModel>, (Option<int>, Seq<char>)>(seq![node_of(es, es.len())]),
    decreases es.len() - k,
{
    let e = Seq::<char>::empty();
    let pos = scalars_text(e, es, k).len() as int;
    let st0 = with_key_mode(at(pos), true);
    lemma_scalars_prefix(es, k, es.len());
    if k == es.len() {
        reveal(lex_at);
        assert(skip_trivia(s, pos) == Trivia::Next(pos));
        let st1 = LexState { pos: pos, peeked: Some(TokenModel::Eof), key_mode: true };
        assert(peek_tok(s, st0) == Ok::<(TokenModel, LexState), (Option<int>, Seq<char>)>((TokenModel::Eof, st1)));
        assert(skip_newlines(s, st0) == Ok::<LexState, (Option<int>, Seq<char>)>(st1));
    } else {
        let key = es[k as int].0;
        let v = es[k as int].1;
        lemma_line_at(s, es, k);
        assert(es[k as int] == (key, v));
        lemma_keyval_line(s, pos, key, v);
        lemma_inline_insert(es, k, false);
        assert(nav(seq![node_of(es, k)], 0, Seq::<Seq<char>>::empty()) == Some(0int));
        lemma_flat_lines(s, es, (k + 1) as nat);
    }
}

/// A table whose entries are all written on `key = value` lines (strings,
/// booleans, integers, and arrays and inline tables of them, under keys
/// that are distinct and read back as keys), printed as a document, is read
/// back as the same table.
pub proof fn law_flat_document_reads_back(es: Seq<(Seq<char>, ValueModel)>)
    requires
        flat(es),
    ensures
        parse_spec(document_text(ValueModel::Table(es))) == Ok::<ValueModel, (Option<int>, Seq<char>)>(ValueModel::Table(es)),
{
    let e = Seq::<char>::empty();
    let s = document_text(ValueModel::Table(es));
    let o1 = scalars_text(e, es, es.len());
    lemma_flat_passes(es, o1, es.len());
    assert(s == o1);
    assert(scalars_text(e, es, 0) == e);
    assert(node_of(es, 0) =~= Seq::<(Seq<char>, TrackedModel)>::empty());
    assert(start(s) == at(0));
    lemma_flat_lines(s, es, 0);
    crate::tracker::lemma_node_entries(seq![node_of(es, es.len())], 0, es.len());
    assert(tree_model(seq![node_of(es, es.len())], 0) =~= es);
}

} // verus!
