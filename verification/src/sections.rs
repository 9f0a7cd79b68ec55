//! A whole printed document read back: its `key = value` lines, its
//! sub-tables under `[path]` headers and its arrays of tables under
//! `[[path]]` headers. The tables come back with the same entries, each
//! table's entries in the order the printer writes them: values written
//! inline first, then sub-tables, then arrays of tables.

use vstd::prelude::*;
use crate::grammar::{Lexed, TokenModel, Trivia, bare_key_char, comment_scan, is_control, is_digit, lex_at, skip_trivia};
use crate::layout::{
    aot_tables_text, aots_text, before_header, date_text, document_text, ends_blank, escape_char, escaped, inline_text,
    is_aot, is_bare, is_inline, items_text, key_text, offset_size, offset_text, pairs_text, path_text, quoted_text,
    scalars_text, subtables_text, table_text, time_text, trim_zeros,
};
use crate::lexer::LexState;
use crate::roundtrip::{
    at, digit_end, ended, float_text, key_token, lemma_digit_end_bounds, lemma_keyval_line, lemma_lex_key, lemma_lex_punct,
    lemma_lex_space, lemma_lex_spaces, lemma_lex_string, lemma_nat_digits, lemma_text_char, lemma_text_sub,
    lemma_value_reads_back, line_text, number_float_text, readable, readable_key, ready, text_at,
};
use crate::syntax::{
    document_spec, expect_tok, key_rest, key_spec, keyval_spec, newline_or_eof, next_tok, parse_spec, peek_tok, shrinks,
    simple_key, skip_newlines, start, value_spec, with_key_mode,
};
use crate::table::{distinct_keys, find_key, lemma_find_key, lookup};
use crate::text::{hex_char, hex_digits, nat_digits, padded_digits};
use crate::tracker::{append_aot_msg, keyval_msg, open_table_msg, 
    NodeModel, TrackedModel, aot_values, append_aot_spec, arena_wf, entry_value, insert_spec, keyval_effect, lemma_node_entries,
    nav, node_entries, open_table_spec, refs_ok, step_create, tree_model, walk,
};
use crate::value::{LocalDate, LocalTime, UtcOffset, ValueModel};

verus! {

/// A table the printer writes and the parser reads back: its keys are
/// distinct and read back as keys; a value written inline reads back; a
/// sub-table, and each table of an array of tables, is such a table in
/// turn.
pub open spec fn printable(v: ValueModel) -> bool
    decreases v,
{
    match v {
        ValueModel::Table(es) => distinct_keys(es) && forall|i: int|
            0 <= i < es.len() ==> readable_key(#[trigger] es[i].0) && match es[i].1 {
                ValueModel::Table(_) => printable(es[i].1),
                ValueModel::Array(vs) => if is_aot(vs) {
                    forall|t: int| 0 <= t < vs.len() ==> printable(#[trigger] vs[t])
                } else {
                    readable(es[i].1)
                },
                _ => readable(es[i].1),
            },
        _ => false,
    }
}

/// The entries of `es` that the printer writes on `key = value` lines,
/// among its first `k`.
pub open spec fn inline_part(es: Seq<(Seq<char>, ValueModel)>, k: nat) -> Seq<(Seq<char>, ValueModel)>
    decreases k,
{
    if k == 0 || k > es.len() {
        Seq::empty()
    } else {
        let pre = inline_part(es, (k - 1) as nat);
        if is_inline(es[k - 1].1) {
            pre.push(es[k - 1])
        } else {
            pre
        }
    }
}

/// The sub-tables among the first `k` entries of `es`, each with its
/// entries in the order they are read back.
pub open spec fn table_part(es: Seq<(Seq<char>, ValueModel)>, k: nat) -> Seq<(Seq<char>, ValueModel)>
    decreases es, 1nat, k,
{
    if k == 0 || k > es.len() {
        Seq::empty()
    } else {
        let pre = table_part(es, (k - 1) as nat);
        proof {
            assert(decreases_to!(es => es[k - 1]));
        }
        match es[k - 1].1 {
            ValueModel::Table(sub) => pre.push((es[k - 1].0, ValueModel::Table(reordered(sub)))),
            _ => pre,
        }
    }
}

/// The arrays of tables among the first `k` entries of `es`, each table
/// with its entries in the order they are read back.
pub open spec fn aot_part(es: Seq<(Seq<char>, ValueModel)>, k: nat) -> Seq<(Seq<char>, ValueModel)>
    decreases es, 1nat, k,
{
    if k == 0 || k > es.len() {
        Seq::empty()
    } else {
        let pre = aot_part(es, (k - 1) as nat);
        proof {
            assert(decreases_to!(es => es[k - 1]));
        }
        match es[k - 1].1 {
            ValueModel::Array(arr) => if is_aot(arr) {
                pre.push((es[k - 1].0, ValueModel::Array(reordered_tables(arr, arr.len()))))
            } else {
                pre
            },
            _ => pre,
        }
    }
}

/// The first `j` tables of `arr`, each with its entries in the order they
/// are read back.
pub open spec fn reordered_tables(arr: Seq<ValueModel>, j: nat) -> Seq<ValueModel>
    decreases arr, 0nat, j,
{
    if j == 0 || j > arr.len() {
        Seq::empty()
    } else {
        let pre = reordered_tables(arr, (j - 1) as nat);
        match arr[j - 1] {
            ValueModel::Table(t) => pre.push(ValueModel::Table(reordered(t))),
            _ => pre,
        }
    }
}

/// The entries of `es` in the order a printed document reads them back:
/// values written inline, then sub-tables, then arrays of tables, the
/// tables within in the same order.
pub open spec fn reordered(es: Seq<(Seq<char>, ValueModel)>) -> Seq<(Seq<char>, ValueModel)>
    decreases es, 2nat, 0nat,
{
    inline_part(es, es.len()) + table_part(es, es.len()) + aot_part(es, es.len())
}

/// `s` starts with `a`.
pub open spec fn starts(s: Seq<char>, a: Seq<char>) -> bool {
    a.len() <= s.len() && forall|i: int| 0 <= i < a.len() ==> #[trigger] a[i] == s[i]
}

proof fn lemma_starts_add(a: Seq<char>, b: Seq<char>)
    ensures
        starts(a + b, a),
{
}

proof fn lemma_starts_trans(s: Seq<char>, b: Seq<char>, a: Seq<char>)
    requires
        starts(s, b),
        starts(b, a),
    ensures
        starts(s, a),
{
    assert forall|i: int| 0 <= i < a.len() implies #[trigger] a[i] == s[i] by {
        assert(a[i] == b[i]);
    }
}

proof fn lemma_ext_header(o: Seq<char>, h: Seq<char>)
    ensures
        starts(before_header(o) + h, o),
{
    lemma_starts_add(before_header(o), h);
    if before_header(o) != o {
        lemma_starts_add(o, seq!['\n']);
        assert(before_header(o) == o + seq!['\n']);
    }
    lemma_starts_trans(before_header(o) + h, before_header(o), o);
}

proof fn lemma_ext_scalars(out: Seq<char>, es: Seq<(Seq<char>, ValueModel)>, k: nat)
    ensures
        starts(scalars_text(out, es, k), out),
        1 <= k <= es.len() ==> starts(scalars_text(out, es, k), scalars_text(out, es, (k - 1) as nat)),
        line_done(out) ==> line_done(scalars_text(out, es, k)),
    decreases k,
{
    if 1 <= k <= es.len() {
        lemma_ext_scalars(out, es, (k - 1) as nat);
        let o = scalars_text(out, es, (k - 1) as nat);
        if is_inline(es[k - 1].1) {
            let x = key_text(es[k - 1].0) + seq![' ', '=', ' '] + inline_text(es[k - 1].1) + seq!['\n'];
            assert(scalars_text(out, es, k) =~= o + x);
            lemma_starts_add(o, x);
            assert((o + x).last() == x.last());
        }
        lemma_starts_trans(scalars_text(out, es, k), o, out);
    }
}

proof fn lemma_ext_table(out: Seq<char>, es: Seq<(Seq<char>, ValueModel)>, p: Seq<Seq<char>>)
    ensures
        starts(table_text(out, es, p), out),
        line_done(out) ==> line_done(table_text(out, es, p)),
    decreases es, 3nat, 0nat,
{
    let o1 = scalars_text(out, es, es.len());
    let o2 = subtables_text(o1, es, p, es.len());
    lemma_ext_scalars(out, es, es.len());
    lemma_ext_subs(o1, es, p, es.len());
    lemma_ext_aots(o2, es, p, es.len());
    lemma_starts_trans(o2, o1, out);
    lemma_starts_trans(table_text(out, es, p), o2, out);
}

proof fn lemma_ext_subs(out: Seq<char>, es: Seq<(Seq<char>, ValueModel)>, p: Seq<Seq<char>>, k: nat)
    ensures
        starts(subtables_text(out, es, p, k), out),
        1 <= k <= es.len() ==> starts(subtables_text(out, es, p, k), subtables_text(out, es, p, (k - 1) as nat)),
        line_done(out) ==> line_done(subtables_text(out, es, p, k)),
    decreases es, 2nat, k,
{
    if 1 <= k <= es.len() {
        lemma_ext_subs(out, es, p, (k - 1) as nat);
        let o = subtables_text(out, es, p, (k - 1) as nat);
        assert(decreases_to!(es => es[k - 1]));
        match es[k - 1].1 {
            ValueModel::Table(sub) => {
                let q = p.push(es[k - 1].0);
                let h = seq!['['] + path_text(q) + seq![']', '\n'];
                lemma_ext_header(o, h);
                assert((before_header(o) + h).last() == '\n');
                lemma_ext_table(before_header(o) + h, sub, q);
                assert(before_header(o) + seq!['['] + path_text(q) + seq![']', '\n'] =~= before_header(o) + h);
                lemma_starts_trans(subtables_text(out, es, p, k), before_header(o) + h, o);
            },
            _ => {},
        }
        lemma_starts_trans(subtables_text(out, es, p, k), o, out);
    }
}

proof fn lemma_ext_aots(out: Seq<char>, es: Seq<(Seq<char>, ValueModel)>, p: Seq<Seq<char>>, k: nat)
    ensures
        starts(aots_text(out, es, p, k), out),
        1 <= k <= es.len() ==> starts(aots_text(out, es, p, k), aots_text(out, es, p, (k - 1) as nat)),
        line_done(out) ==> line_done(aots_text(out, es, p, k)),
    decreases es, 2nat, k,
{
    if 1 <= k <= es.len() {
        lemma_ext_aots(out, es, p, (k - 1) as nat);
        let o = aots_text(out, es, p, (k - 1) as nat);
        assert(decreases_to!(es => es[k - 1]));
        match es[k - 1].1 {
            ValueModel::Array(arr) => if is_aot(arr) {
                lemma_ext_aot_tables(o, arr, p.push(es[k - 1].0), arr.len());
            },
            _ => {},
        }
        lemma_starts_trans(aots_text(out, es, p, k), o, out);
    }
}

proof fn lemma_ext_aot_tables(out: Seq<char>, arr: Seq<ValueModel>, p: Seq<Seq<char>>, j: nat)
    ensures
        starts(aot_tables_text(out, arr, p, j), out),
        1 <= j <= arr.len() ==> starts(aot_tables_text(out, arr, p, j), aot_tables_text(out, arr, p, (j - 1) as nat)),
        line_done(out) ==> line_done(aot_tables_text(out, arr, p, j)),
    decreases arr, 1nat, j,
{
    if 1 <= j <= arr.len() {
        lemma_ext_aot_tables(out, arr, p, (j - 1) as nat);
        let o = aot_tables_text(out, arr, p, (j - 1) as nat);
        match arr[j - 1] {
            ValueModel::Table(t) => {
                let h = seq!['[', '['] + path_text(p) + seq![']', ']', '\n'];
                lemma_ext_header(o, h);
                assert((before_header(o) + h).last() == '\n');
                lemma_ext_table(before_header(o) + h, t, p);
                assert(before_header(o) + seq!['[', '['] + path_text(p) + seq![']', ']', '\n'] =~= before_header(o) + h);
                lemma_starts_trans(aot_tables_text(out, arr, p, j), before_header(o) + h, o);
            },
            _ => {},
        }
        lemma_starts_trans(aot_tables_text(out, arr, p, j), o, out);
    }
}

/// At the end of the text, the document is complete.
proof fn lemma_doc_end(s: Seq<char>, n: Seq<NodeModel>, q: Seq<Seq<char>>)
    ensures
        document_spec(s, at(s.len() as int), n, q) == Ok::<Seq<NodeModel>, (Option<int>, Seq<char>)>(n),
{
    reveal(lex_at);
    assert(skip_trivia(s, s.len() as int) == Trivia::Next(s.len() as int));
    let st1 = LexState { pos: s.len() as int, peeked: Some(TokenModel::Eof), key_mode: true };
    assert(skip_newlines(s, with_key_mode(at(s.len() as int), true)) == Ok::<LexState, (Option<int>, Seq<char>)>(st1));
}

/// A `key = value` line at `p` is read, and its entry added to the current
/// table.
proof fn lemma_doc_keyval(s: Seq<char>, p: int, key: Seq<char>, v: ValueModel, n: Seq<NodeModel>, q: Seq<Seq<char>>)
    requires
        readable_key(key),
        readable(v),
        text_at(s, p, line_text((key, v))),
    ensures
        document_spec(s, at(p), n, q) == match keyval_effect(n, q, seq![key], v) {
            Some(n2) => document_spec(s, at(p + line_text((key, v)).len()), n2, q),
            None => Err((None, keyval_msg(n, q, seq![key]))),
        },
{
    lemma_keyval_line(s, p, key, v);
}

/// The text of a header: a blank line before it when `blank`, then
/// `[path]`, or `[[path]]` when `aot`.
pub open spec fn header_text(blank: bool, p: Seq<Seq<char>>, aot: bool) -> Seq<char> {
    (if blank {
        seq!['\n']
    } else {
        Seq::empty()
    }) + (if aot {
        seq!['[', '[']
    } else {
        seq!['[']
    }) + path_text(p) + (if aot {
        seq![']', ']', '\n']
    } else {
        seq![']', '\n']
    })
}

/// Keys that read back as keys.
pub open spec fn readable_path(p: Seq<Seq<char>>) -> bool {
    forall|i: int| 0 <= i < p.len() ==> readable_key(#[trigger] p[i])
}

proof fn lemma_path_step(p: Seq<Seq<char>>, k: int)
    requires
        1 <= k < p.len(),
    ensures
        path_text(p.take(k + 1)) == path_text(p.take(k)) + seq!['.'] + key_text(p[k]),
{
    assert(p.take(k + 1).drop_last() =~= p.take(k));
    assert(p.take(k + 1).last() == p[k]);
}

proof fn lemma_path_prefix(p: Seq<Seq<char>>, k: int)
    requires
        1 <= k <= p.len(),
    ensures
        starts(path_text(p), path_text(p.take(k))),
    decreases p.len(),
{
    if k == p.len() {
        assert(p.take(k) =~= p);
    } else {
        let d = p.drop_last();
        lemma_path_prefix(d, k);
        assert(d.take(k) =~= p.take(k));
        if p.len() > 1 {
            lemma_starts_add(path_text(d), seq!['.'] + key_text(p.last()));
            assert(path_text(p) =~= path_text(d) + (seq!['.'] + key_text(p.last())));
        }
        lemma_starts_trans(path_text(p), path_text(d), path_text(p.take(k)));
    }
}

/// A path's text starts with the text of its first key, which is neither
/// empty nor starts with a bracket.
proof fn lemma_path_first(p: Seq<Seq<char>>)
    requires
        p.len() >= 1,
        readable_path(p),
    ensures
        starts(path_text(p), key_text(p[0])),
        path_text(p).len() >= 1,
        path_text(p)[0] != '[',
{
    lemma_path_prefix(p, 1);
    assert(p.take(1).len() == 1);
    assert(p.take(1)[0] == p[0]);
    let k = p[0];
    if is_bare(k) {
        assert(bare_key_char(k[0]));
    } else {
        assert(quoted_text(k)[0] == '"');
    }
}

/// From key `k` of a path on, the rest of the path is read, up to the token
/// that follows it.
proof fn lemma_read_path(s: Seq<char>, a: int, p: Seq<Seq<char>>, k: int, t: TokenModel, e: int)
    requires
        1 <= k <= p.len(),
        readable_path(p),
        text_at(s, a, path_text(p)),
        a + path_text(p).len() < s.len(),
        s[a + path_text(p).len()] == ']',
        lex_at(s, a + path_text(p).len(), true) == Lexed::Tok(t, e),
        t != TokenModel::Dot,
    ensures
        key_rest(s, LexState { pos: a + path_text(p.take(k)).len(), peeked: None, key_mode: true }, p.take(k))
            == Ok::<(Seq<Seq<char>>, LexState), (Option<int>, Seq<char>)>((p, LexState { pos: e, peeked: Some(t), key_mode: true })),
    decreases p.len() - k,
{
    let d = a + path_text(p.take(k)).len();
    let st = LexState { pos: d, peeked: None, key_mode: true };
    lemma_path_prefix(p, k);
    if k == p.len() {
        assert(p.take(k) =~= p);
    } else {
        lemma_path_step(p, k);
        lemma_path_prefix(p, k + 1);
        let x = path_text(p.take(k + 1));
        let kt = key_text(p[k]);
        assert(x[path_text(p.take(k)).len() as int] == '.');
        lemma_text_char(s, a, path_text(p), path_text(p.take(k)).len() as int);
        assert(s[d] == '.');
        lemma_lex_punct(s, d, true);
        // The key after the dot, and what follows it.
        assert(text_at(s, d + 1, kt)) by {
            assert forall|i: int| 0 <= i < kt.len() implies #[trigger] s.subrange(d + 1, d + 1 + kt.len())[i] == kt[i] by {
                assert(x[path_text(p.take(k)).len() + 1 + i] == kt[i]);
                lemma_text_char(s, a, path_text(p), path_text(p.take(k)).len() + 1 + i);
            }
            assert(s.subrange(d + 1, d + 1 + kt.len()) =~= kt);
        }
        let f = d + 1 + kt.len();
        assert(f == a + x.len());
        if k + 1 < p.len() {
            lemma_path_step(p, k + 1);
            lemma_path_prefix(p, k + 2);
            assert(path_text(p.take(k + 2))[x.len() as int] == '.');
            lemma_text_char(s, a, path_text(p), x.len() as int);
        } else {
            assert(p.take(k + 1) =~= p);
        }
        lemma_lex_key(s, d + 1, p[k], true);
        let st2 = LexState { pos: d + 1, peeked: None, key_mode: true };
        assert(simple_key(s, st2) == Ok::<(Seq<char>, LexState), (Option<int>, Seq<char>)>((p[k], LexState { pos: f, peeked: None, key_mode: true })));
        assert(p.take(k).push(p[k]) =~= p.take(k + 1));
        lemma_read_path(s, a, p, k + 1, t, e);
    }
}

/// The path of a header, starting at `a` and followed by `]`, is read in
/// key mode up to the closing token.
proof fn lemma_read_header_path(s: Seq<char>, a: int, path: Seq<Seq<char>>, close: TokenModel, e: int)
    requires
        path.len() >= 1,
        readable_path(path),
        text_at(s, a, path_text(path)),
        a + path_text(path).len() < s.len(),
        s[a + path_text(path).len()] == ']',
        lex_at(s, a + path_text(path).len(), true) == Lexed::Tok(close, e),
        close != TokenModel::Dot,
    ensures
        key_spec(s, at(a)) == Ok::<(Seq<Seq<char>>, LexState), (Option<int>, Seq<char>)>((path, LexState { pos: e, peeked: Some(close), key_mode: false })),
{
    let pt = path_text(path);
    let k0 = path[0];
    lemma_path_first(path);
    lemma_text_sub(s, a, pt, 0, key_text(k0).len() as int);
    assert(pt.subrange(0, key_text(k0).len() as int) =~= key_text(k0));
    if path.len() > 1 {
        lemma_path_step(path, 1);
        lemma_path_prefix(path, 2);
        assert(path_text(path.take(2))[key_text(k0).len() as int] == '.');
        lemma_text_char(s, a, pt, key_text(k0).len() as int);
    } else {
        assert(pt == key_text(k0));
    }
    lemma_lex_key(s, a, k0, true);
    assert(path.take(1) =~= seq![k0]);
    lemma_read_path(s, a, path, 1, close, e);
}

/// A header with its line ends written as `w` says.
pub open spec fn wheader_text(w: Ending, blank: bool, p: Seq<Seq<char>>, aot: bool) -> Seq<char> {
    (if blank {
        blank_eol(w)
    } else {
        Seq::empty()
    }) + (if aot {
        seq!['[', '[']
    } else {
        seq!['[']
    }) + path_text(p) + (if aot {
        seq![']', ']']
    } else {
        seq![']']
    }) + eol(w)
}

/// Where the parts of a header at `p` are.
pub open spec fn header_start(w: Ending, p: int, blank: bool) -> int {
    if blank {
        p + blank_eol(w).len()
    } else {
        p
    }
}

/// The brackets and the line ends of a header at `p` are where the
/// header's text puts them.
proof fn lemma_header_chars(s: Seq<char>, p: int, w: Ending, blank: bool, path: Seq<Seq<char>>, aot: bool)
    requires
        path.len() >= 1,
        readable_path(path),
        text_at(s, p, wheader_text(w, blank, path, aot)),
    ensures
        ({
            let b = header_start(w, p, blank);
            let a = b + if aot { 2int } else { 1int };
            let z = a + path_text(path).len();
            let e = z + if aot { 2int } else { 1int };
            &&& blank ==> text_at(s, p, blank_eol(w))
            &&& s[b] == '['
            &&& s[b + 1] == (if aot { '[' } else { path_text(path)[0] })
            &&& text_at(s, a, path_text(path))
            &&& s[z] == ']'
            &&& aot ==> s[z + 1] == ']'
            &&& text_at(s, e, eol(w))
            &&& e + eol(w).len() == p + wheader_text(w, blank, path, aot).len()
        }),
{
    let h = wheader_text(w, blank, path, aot);
    let b = header_start(w, p, blank);
    let a = b + if aot { 2int } else { 1int };
    let pt = path_text(path);
    let z = a + pt.len();
    let e = z + if aot { 2int } else { 1int };
    lemma_path_first(path);
    if blank {
        lemma_text_sub(s, p, h, 0, blank_eol(w).len() as int);
        assert(h.subrange(0, blank_eol(w).len() as int) =~= blank_eol(w));
    }
    lemma_text_char(s, p, h, b - p);
    lemma_text_char(s, p, h, b - p + 1);
    assert(text_at(s, a, pt)) by {
        assert forall|i: int| 0 <= i < pt.len() implies #[trigger] s.subrange(a, a + pt.len())[i] == pt[i] by {
            lemma_text_char(s, p, h, a - p + i);
        }
        assert(s.subrange(a, a + pt.len()) =~= pt);
    }
    lemma_text_char(s, p, h, z - p);
    if aot {
        lemma_text_char(s, p, h, z - p + 1);
    }
    lemma_text_sub(s, p, h, e - p, h.len() as int);
    assert(h.subrange(e - p, h.len() as int) =~= eol(w));
}

/// The reader at a header's `[` or `[[`, the blank line before it being
/// skipped.
proof fn lemma_header_open(s: Seq<char>, p: int, w: Ending, blank: bool, path: Seq<Seq<char>>, aot: bool)
    requires
        path.len() >= 1,
        readable_path(path),
        text_at(s, p, wheader_text(w, blank, path, aot)),
    ensures
        ({
            let a = header_start(w, p, blank) + if aot { 2int } else { 1int };
            let open = if aot { TokenModel::DoubleLBracket } else { TokenModel::LBracket };
            skip_newlines(s, with_key_mode(at(p), true)) == Ok::<LexState, (Option<int>, Seq<char>)>(
                LexState { pos: a, peeked: Some(open), key_mode: true },
            )
        }),
{
    lemma_header_chars(s, p, w, blank, path, aot);
    lemma_path_first(path);
    let b = header_start(w, p, blank);
    let a = b + if aot { 2int } else { 1int };
    let open = if aot { TokenModel::DoubleLBracket } else { TokenModel::LBracket };
    assert(lex_at(s, b, true) == Lexed::Tok(open, a)) by {
        reveal(lex_at);
        assert(skip_trivia(s, b) == Trivia::Next(b));
    }
    let st1 = LexState { pos: a, peeked: Some(open), key_mode: true };
    assert(skip_newlines(s, with_key_mode(at(b), true)) == Ok::<LexState, (Option<int>, Seq<char>)>(st1));
    if blank {
        lemma_blank_eol(s, p, w, true);
    }
}

/// After its `[` or `[[`, a header's path, closing brackets and line end
/// are read.
proof fn lemma_header_rest(s: Seq<char>, p: int, w: Ending, blank: bool, path: Seq<Seq<char>>, aot: bool)
    requires
        path.len() >= 1,
        readable_path(path),
        ending_ok(w),
        text_at(s, p, wheader_text(w, blank, path, aot)),
    ensures
        ({
            let a = header_start(w, p, blank) + if aot { 2int } else { 1int };
            let e = p + wheader_text(w, blank, path, aot).len() - eol(w).len();
            let close = if aot { TokenModel::DoubleRBracket } else { TokenModel::RBracket };
            &&& key_spec(s, at(a)) == Ok::<(Seq<Seq<char>>, LexState), (Option<int>, Seq<char>)>((path, LexState { pos: e, peeked: Some(close), key_mode: false }))
            &&& expect_tok(s, LexState { pos: e, peeked: Some(close), key_mode: false }, close) == Ok::<LexState, (Option<int>, Seq<char>)>(at(e))
            &&& newline_or_eof(s, at(e)) == Ok::<LexState, (Option<int>, Seq<char>)>(at(e + eol(w).len()))
        }),
{
    lemma_header_chars(s, p, w, blank, path, aot);
    let b = header_start(w, p, blank);
    let a = b + if aot { 2int } else { 1int };
    let z = a + path_text(path).len();
    let e = z + if aot { 2int } else { 1int };
    let close = if aot { TokenModel::DoubleRBracket } else { TokenModel::RBracket };
    lemma_eol(s, e, w, false);
    assert(lex_at(s, z, true) == Lexed::Tok(close, e)) by {
        reveal(lex_at);
        assert(skip_trivia(s, z) == Trivia::Next(z));
    }
    lemma_read_header_path(s, a, path, close, e);
}

/// A header at `p` is read: it opens its table, or adds a table to its
/// array of tables, which becomes the current table.
#[verifier::rlimit(60)]
proof fn lemma_doc_header(s: Seq<char>, p: int, w: Ending, blank: bool, path: Seq<Seq<char>>, aot: bool, n: Seq<NodeModel>, q: Seq<Seq<char>>)
    requires
        path.len() >= 1,
        readable_path(path),
        ending_ok(w),
        text_at(s, p, wheader_text(w, blank, path, aot)),
    ensures
        document_spec(s, at(p), n, q) == match (if aot { append_aot_spec(n, path) } else { open_table_spec(n, path) }) {
            Some(n2) => document_spec(s, at(p + wheader_text(w, blank, path, aot).len()), n2, path),
            None => Err((None, if aot { append_aot_msg(n, path) } else { open_table_msg(n, path) })),
        },
{
    lemma_header_open(s, p, w, blank, path, aot);
    lemma_header_rest(s, p, w, blank, path, aot);
    let a = header_start(w, p, blank) + if aot { 2int } else { 1int };
    if aot {
        let st1 = LexState { pos: a, peeked: Some(TokenModel::DoubleLBracket), key_mode: true };
        assert(next_tok(s, with_key_mode(st1, false)) == Ok::<(TokenModel, LexState), (Option<int>, Seq<char>)>((TokenModel::DoubleLBracket, at(a))));
    } else {
        let st1 = LexState { pos: a, peeked: Some(TokenModel::LBracket), key_mode: true };
        assert(next_tok(s, with_key_mode(st1, false)) == Ok::<(TokenModel, LexState), (Option<int>, Seq<char>)>((TokenModel::LBracket, at(a))));
    }
}

/// From `n` to `m`, only node `j` changed, and nodes were added.
pub open spec fn untouched(n: Seq<NodeModel>, m: Seq<NodeModel>, j: int) -> bool {
    &&& n.len() <= m.len()
    &&& forall|a: int| 0 <= a < n.len() && a != j ==> #[trigger] m[a] == n[a]
}

proof fn lemma_untouched_trans(n: Seq<NodeModel>, m: Seq<NodeModel>, q: Seq<NodeModel>, j: int, c: int)
    requires
        untouched(n, m, j),
        untouched(m, q, c),
        c == j || c >= n.len(),
    ensures
        untouched(n, q, j),
{
    assert forall|a: int| 0 <= a < n.len() && a != j implies #[trigger] q[a] == n[a] by {
        assert(q[a] == m[a]);
    }
}

/// A tree of tables read from an arena depends only on the nodes from its
/// own on.
proof fn lemma_tree_frame(n: Seq<NodeModel>, m: Seq<NodeModel>, c: int)
    requires
        arena_wf(n),
        0 <= c < n.len() <= m.len(),
        forall|a: int| c <= a < n.len() ==> #[trigger] m[a] == n[a],
    ensures
        tree_model(m, c) == tree_model(n, c),
    decreases n.len() - c, 2int, 0nat,
{
    assert(m[c] == n[c]);
    lemma_entries_frame(n, m, c, n[c].len());
}

proof fn lemma_entries_frame(n: Seq<NodeModel>, m: Seq<NodeModel>, id: int, k: nat)
    requires
        arena_wf(n),
        0 <= id < n.len() <= m.len(),
        k <= n[id].len(),
        k <= m[id].len(),
        forall|i: int| 0 <= i < k ==> #[trigger] m[id][i] == n[id][i],
        forall|a: int| id < a < n.len() ==> #[trigger] m[a] == n[a],
    ensures
        node_entries(m, id, k) == node_entries(n, id, k),
    decreases n.len() - id, 1int, k,
{
    if k > 0 {
        lemma_entries_frame(n, m, id, (k - 1) as nat);
        let e = n[id][k - 1].1;
        assert(m[id][k - 1] == n[id][k - 1]);
        assert(refs_ok(n[id][k - 1].1, id, n.len() as int));
        match e {
            TrackedModel::Implicit(c, _) => {
                assert(id < c < n.len());
                assert forall|a: int| c <= a < n.len() implies #[trigger] m[a] == n[a] by {
                }
                lemma_tree_frame(n, m, c);
            },
            TrackedModel::Aot(ids) => {
                assert forall|t: int| 0 <= t < ids.len() implies id < #[trigger] ids[t] && ids[t] < n.len() by {
                    assert(refs_ok(e, id, n.len() as int));
                }
                lemma_aot_frame(n, m, id, ids, ids.len());
            },
            _ => {},
        }
        assert(entry_value(m, id, e) == entry_value(n, id, e));
        assert(node_entries(m, id, k) == node_entries(m, id, (k - 1) as nat).push((m[id][k - 1].0, entry_value(m, id, m[id][k - 1].1))));
    }
}

proof fn lemma_aot_frame(n: Seq<NodeModel>, m: Seq<NodeModel>, id: int, ids: Seq<usize>, k: nat)
    requires
        arena_wf(n),
        0 <= id < n.len() <= m.len(),
        k <= ids.len(),
        forall|t: int| 0 <= t < ids.len() ==> id < #[trigger] ids[t] && ids[t] < n.len(),
        forall|a: int| id < a < n.len() ==> #[trigger] m[a] == n[a],
    ensures
        aot_values(m, id, ids, k) == aot_values(n, id, ids, k),
    decreases n.len() - id, 0int, k,
{
    if k > 0 {
        lemma_aot_frame(n, m, id, ids, (k - 1) as nat);
        let c = ids[k - 1] as int;
        assert(id < c < n.len());
        assert forall|a: int| c <= a < n.len() implies #[trigger] m[a] == n[a] by {
        }
        lemma_tree_frame(n, m, c);
    }
}

/// Following a path leads to the same node in an arena whose nodes before
/// that node are unchanged.
pub(crate) proof fn lemma_nav_frame(n: Seq<NodeModel>, m: Seq<NodeModel>, p: Seq<Seq<char>>, j: int)
    requires
        arena_wf(n),
        nav(n, 0, p) == Some(j),
        n.len() <= m.len(),
        forall|a: int| 0 <= a < j ==> #[trigger] m[a] == n[a],
    ensures
        nav(m, 0, p) == Some(j),
    decreases p.len(),
{
    crate::rules::lemma_nav_range(n, 0, p);
    if p.len() > 0 {
        let j1 = nav(n, 0, p.drop_last()).unwrap();
        crate::rules::lemma_nav_range(n, 0, p.drop_last());
        lemma_nav_frame(n, m, p.drop_last(), j1);
        assert(m[j1] == n[j1]);
    }
}

/// Walking a path that leads somewhere creates nothing.
pub(crate) proof fn lemma_walk_nav(n: Seq<NodeModel>, p: Seq<Seq<char>>, j: int)
    requires
        arena_wf(n),
        nav(n, 0, p) == Some(j),
    ensures
        walk(n, 0, p, false) == Some((n, j)),
    decreases p.len(),
{
    if p.len() > 0 {
        crate::rules::lemma_nav_range(n, 0, p);
        let j1 = nav(n, 0, p.drop_last()).unwrap();
        lemma_walk_nav(n, p.drop_last(), j1);
    }
}

/// Adding an entry for a key that is not there makes it the one found.
pub(crate) proof fn lemma_find_pushed(e: NodeModel, k: Seq<char>, x: TrackedModel)
    requires
        find_key(e, k) is None,
    ensures
        find_key(e.push((k, x)), k) == Some(e.len() as int),
        lookup(e.push((k, x)), k) == Some(x),
{
    assert(e.push((k, x)).drop_last() =~= e);
}

/// A key/value line whose key is new in the current table at node `j`
/// adds its entry there.
proof fn lemma_keyval_effect(n: Seq<NodeModel>, p: Seq<Seq<char>>, j: int, key: Seq<char>, v: ValueModel)
    requires
        nav(n, 0, p) == Some(j),
        find_key(n[j], key) is None,
    ensures
        keyval_effect(n, p, seq![key], v) == Some(n.update(j, n[j].push((key, TrackedModel::Defined(v))))),
{
    assert(seq![key].drop_last() =~= Seq::<Seq<char>>::empty());
    assert(seq![key].last() == key);
}

/// A `[path.key]` header for a key that is new in the table at node `j`
/// (the one at `path`) adds a new, opened table there.
proof fn lemma_open_effect(n: Seq<NodeModel>, p: Seq<Seq<char>>, j: int, key: Seq<char>)
    requires
        arena_wf(n),
        nav(n, 0, p) == Some(j),
        find_key(n[j], key) is None,
    ensures
        open_table_spec(n, p.push(key)) == Some(
            n.update(j, n[j].push((key, TrackedModel::Implicit(n.len() as int, true)))).push(Seq::<(Seq<char>, TrackedModel)>::empty()),
        ),
        arena_wf(open_table_spec(n, p.push(key)).unwrap()),
        nav(open_table_spec(n, p.push(key)).unwrap(), 0, p.push(key)) == Some(n.len() as int),
{
    assert(p.push(key).drop_last() =~= p);
    lemma_walk_nav(n, p, j);
    crate::rules::lemma_nav_range(n, 0, p);
    let c = n.len() as int;
    let x = TrackedModel::Implicit(c, true);
    let m = n.update(j, n[j].push((key, x))).push(Seq::<(Seq<char>, TrackedModel)>::empty());
    assert forall|a: int, i: int| 0 <= a < m.len() && 0 <= i < m[a].len() implies refs_ok(#[trigger] m[a][i].1, a, m.len() as int) by {
        if a < c && !(a == j && i == n[j].len()) {
            assert(m[a][i] == n[a][i]);
            assert(refs_ok(n[a][i].1, a, n.len() as int));
        }
    }
    lemma_find_pushed(n[j], key, x);
    lemma_nav_frame(n, m, p, j);
    assert(m[j] == n[j].push((key, x)));
}

/// The first `[[path.key]]` header for a key that is new in the table at
/// node `j` adds an array holding one new table there.
proof fn lemma_first_aot_effect(n: Seq<NodeModel>, p: Seq<Seq<char>>, j: int, key: Seq<char>)
    requires
        arena_wf(n),
        nav(n, 0, p) == Some(j),
        find_key(n[j], key) is None,
        n.len() <= usize::MAX,
    ensures
        append_aot_spec(n, p.push(key)) == Some(
            n.update(j, n[j].push((key, TrackedModel::Aot(seq![n.len() as usize])))).push(Seq::<(Seq<char>, TrackedModel)>::empty()),
        ),
        arena_wf(append_aot_spec(n, p.push(key)).unwrap()),
        nav(append_aot_spec(n, p.push(key)).unwrap(), 0, p.push(key)) == Some(n.len() as int),
{
    assert(p.push(key).drop_last() =~= p);
    lemma_walk_nav(n, p, j);
    crate::rules::lemma_nav_range(n, 0, p);
    let c = n.len() as int;
    let x = TrackedModel::Aot(seq![c as usize]);
    let m = n.update(j, n[j].push((key, x))).push(Seq::<(Seq<char>, TrackedModel)>::empty());
    assert forall|a: int, i: int| 0 <= a < m.len() && 0 <= i < m[a].len() implies refs_ok(#[trigger] m[a][i].1, a, m.len() as int) by {
        if a < c && !(a == j && i == n[j].len()) {
            assert(m[a][i] == n[a][i]);
            assert(refs_ok(n[a][i].1, a, n.len() as int));
        }
    }
    lemma_find_pushed(n[j], key, x);
    lemma_nav_frame(n, m, p, j);
    assert(m[j] == n[j].push((key, x)));
    assert(seq![c as usize].last() == c as usize);
}

/// A further `[[path.key]]` header, the array of tables at `key` being the
/// last entry of the table at node `j`, adds a new table to it.
proof fn lemma_next_aot_effect(n: Seq<NodeModel>, p: Seq<Seq<char>>, j: int, key: Seq<char>, ids: Seq<usize>)
    requires
        arena_wf(n),
        nav(n, 0, p) == Some(j),
        n[j].len() >= 1,
        n[j].last() == (key, TrackedModel::Aot(ids)),
        find_key(n[j].drop_last(), key) is None,
        n.len() <= usize::MAX,
    ensures
        append_aot_spec(n, p.push(key)) == Some(
            n.update(j, n[j].update(n[j].len() - 1, (key, TrackedModel::Aot(ids.push(n.len() as usize))))).push(
                Seq::<(Seq<char>, TrackedModel)>::empty(),
            ),
        ),
        arena_wf(append_aot_spec(n, p.push(key)).unwrap()),
        nav(append_aot_spec(n, p.push(key)).unwrap(), 0, p.push(key)) == Some(n.len() as int),
{
    assert(p.push(key).drop_last() =~= p);
    lemma_walk_nav(n, p, j);
    crate::rules::lemma_nav_range(n, 0, p);
    let c = n.len() as int;
    let last = n[j].len() - 1;
    let x = TrackedModel::Aot(ids.push(c as usize));
    assert(n[j].drop_last().push((key, TrackedModel::Aot(ids))) =~= n[j]);
    lemma_find_pushed(n[j].drop_last(), key, TrackedModel::Aot(ids));
    let e2 = n[j].update(last, (key, x));
    assert(e2 =~= n[j].drop_last().push((key, x)));
    lemma_find_pushed(n[j].drop_last(), key, x);
    let m = n.update(j, e2).push(Seq::<(Seq<char>, TrackedModel)>::empty());
    assert(refs_ok(n[j][last].1, j, n.len() as int));
    assert forall|a: int, i: int| 0 <= a < m.len() && 0 <= i < m[a].len() implies refs_ok(#[trigger] m[a][i].1, a, m.len() as int) by {
        if a < c && !(a == j && i == last) {
            assert(m[a][i] == n[a][i]);
            assert(refs_ok(n[a][i].1, a, n.len() as int));
        } else if a == j && i == last {
            assert(m[a][i].1 == x);
            assert forall|t: int| 0 <= t < ids.push(c as usize).len() implies a < #[trigger] ids.push(c as usize)[t] && ids.push(c as usize)[t] < m.len() by {
                if t < ids.len() {
                    assert(ids.push(c as usize)[t] == ids[t]);
                }
            }
        }
    }
    lemma_nav_frame(n, m, p, j);
    assert(m[j] == e2);
    assert(ids.push(c as usize).last() == c as usize);
}

/// The node of the entries of `es` written inline, among its first `k`.
pub open spec fn inline_node(es: Seq<(Seq<char>, ValueModel)>, k: nat) -> NodeModel {
    let ip = inline_part(es, k);
    Seq::new(ip.len(), |i: int| (ip[i].0, TrackedModel::Defined(ip[i].1)))
}

/// The keys of a node are those of its tree, in order.
proof fn lemma_node_keys(n: Seq<NodeModel>, j: int)
    requires
        0 <= j < n.len(),
    ensures
        tree_model(n, j).len() == n[j].len(),
        forall|x: int| 0 <= x < n[j].len() ==> #[trigger] n[j][x].0 == tree_model(n, j)[x].0,
{
    lemma_node_entries(n, j, n[j].len());
}

/// A key that the tree of node `j` does not have is not found there.
proof fn lemma_fresh(n: Seq<NodeModel>, j: int, key: Seq<char>)
    requires
        0 <= j < n.len(),
        forall|x: int| 0 <= x < tree_model(n, j).len() ==> #[trigger] tree_model(n, j)[x].0 != key,
    ensures
        find_key(n[j], key) is None,
{
    lemma_node_keys(n, j);
    lemma_find_key(n[j], key);
    if let Some(x) = find_key(n[j], key) {
        assert(tree_model(n, j)[x].0 == n[j][x].0);
    }
}

/// The node of the values written inline holds them as its tree, and
/// refers to no other node.
proof fn lemma_inline_node(n: Seq<NodeModel>, j: int, es: Seq<(Seq<char>, ValueModel)>, k: nat)
    requires
        arena_wf(n),
        0 <= j < n.len(),
    ensures
        tree_model(n.update(j, inline_node(es, k)), j) == inline_part(es, k),
        arena_wf(n.update(j, inline_node(es, k))),
{
    let m = n.update(j, inline_node(es, k));
    lemma_node_entries(m, j, m[j].len());
    assert(tree_model(m, j) =~= inline_part(es, k));
    assert forall|a: int, i: int| 0 <= a < m.len() && 0 <= i < m[a].len() implies refs_ok(#[trigger] m[a][i].1, a, m.len() as int) by {
        if a != j {
            assert(m[a][i] == n[a][i]);
            assert(refs_ok(n[a][i].1, a, n.len() as int));
        }
    }
}

/// Each value written inline among the first `k` entries is one of them.
proof fn lemma_inline_from(es: Seq<(Seq<char>, ValueModel)>, k: nat, x: int)
    requires
        0 <= x < inline_part(es, k).len(),
    ensures
        exists|i: int| #![trigger es[i]] 0 <= i < k && i < es.len() && is_inline(es[i].1) && inline_part(es, k)[x] == es[i],
    decreases k,
{
    let pre = inline_part(es, (k - 1) as nat);
    if x < pre.len() {
        lemma_inline_from(es, (k - 1) as nat, x);
        assert(inline_part(es, k)[x] == pre[x]);
        let i = choose|i: int| #![trigger es[i]] 0 <= i < k - 1 && i < es.len() && is_inline(es[i].1) && pre[x] == es[i];
        assert(inline_part(es, k)[x] == es[i]);
    } else {
        assert(inline_part(es, k)[x] == es[k - 1]);
    }
}

/// Each sub-table among the first `k` entries is under the key of one of
/// them that holds a table.
proof fn lemma_table_from(es: Seq<(Seq<char>, ValueModel)>, k: nat, x: int)
    requires
        0 <= x < table_part(es, k).len(),
    ensures
        exists|i: int| #![trigger es[i]] 0 <= i < k && i < es.len() && es[i].1 is Table && table_part(es, k)[x].0 == es[i].0,
    decreases k,
{
    let pre = table_part(es, (k - 1) as nat);
    if x < pre.len() {
        lemma_table_from(es, (k - 1) as nat, x);
        assert(table_part(es, k)[x] == pre[x]);
        let i = choose|i: int| #![trigger es[i]] 0 <= i < k - 1 && i < es.len() && es[i].1 is Table && pre[x].0 == es[i].0;
        assert(table_part(es, k)[x].0 == es[i].0);
    } else {
        assert(table_part(es, k)[x].0 == es[k - 1].0);
    }
}

/// Each array of tables among the first `k` entries is under the key of
/// one of them that holds an array of tables.
proof fn lemma_aot_from(es: Seq<(Seq<char>, ValueModel)>, k: nat, x: int)
    requires
        0 <= x < aot_part(es, k).len(),
    ensures
        exists|i: int| #![trigger es[i]]
            0 <= i < k && i < es.len() && es[i].1 is Array && is_aot(es[i].1->Array_0) && aot_part(es, k)[x].0 == es[i].0,
    decreases k,
{
    let pre = aot_part(es, (k - 1) as nat);
    if x < pre.len() {
        lemma_aot_from(es, (k - 1) as nat, x);
        assert(aot_part(es, k)[x] == pre[x]);
        let i = choose|i: int| #![trigger es[i]]
            0 <= i < k - 1 && i < es.len() && es[i].1 is Array && is_aot(es[i].1->Array_0) && pre[x].0 == es[i].0;
        assert(aot_part(es, k)[x].0 == es[i].0);
    } else {
        assert(aot_part(es, k)[x].0 == es[k - 1].0);
    }
}

/// The key of entry `idx`, a sub-table or an array of tables, is not among
/// the keys read before it: the values written inline, the sub-tables
/// before it, and the arrays of tables before it.
proof fn lemma_key_unseen(es: Seq<(Seq<char>, ValueModel)>, idx: int, k1: nat, k2: nat)
    requires
        distinct_keys(es),
        0 <= idx < es.len(),
        !is_inline(es[idx].1),
        es[idx].1 is Table ==> k1 <= idx && k2 == 0,
        !(es[idx].1 is Table) ==> k1 <= es.len() && k2 <= idx,
    ensures
        ({
            let e = inline_part(es, es.len()) + table_part(es, k1) + aot_part(es, k2);
            forall|x: int| 0 <= x < e.len() ==> #[trigger] e[x].0 != es[idx].0
        }),
{
    let a = inline_part(es, es.len());
    let b = table_part(es, k1);
    let c = aot_part(es, k2);
    let e = a + b + c;
    assert forall|x: int| 0 <= x < e.len() implies #[trigger] e[x].0 != es[idx].0 by {
        if x < a.len() {
            lemma_inline_from(es, es.len(), x);
            assert(e[x] == a[x]);
            let i = choose|i: int| #![trigger es[i]] 0 <= i < es.len() && i < es.len() && is_inline(es[i].1) && a[x] == es[i];
            assert(i != idx);
        } else if x < a.len() + b.len() {
            lemma_table_from(es, k1, x - a.len());
            assert(e[x] == b[x - a.len()]);
            let i = choose|i: int| #![trigger es[i]] 0 <= i < k1 && i < es.len() && es[i].1 is Table && b[x - a.len()].0 == es[i].0;
            assert(i != idx);
        } else {
            lemma_aot_from(es, k2, x - a.len() - b.len());
            assert(e[x] == c[x - a.len() - b.len()]);
            let i = choose|i: int|
                #![trigger es[i]] 0 <= i < k2 && i < es.len() && es[i].1 is Array && is_aot(es[i].1->Array_0) && c[x - a.len() - b.len()].0 == es[i].0;
            assert(i != idx);
        }
    }
}

proof fn lemma_text_in(s: Seq<char>, a: Seq<char>, t: Seq<char>)
    requires
        starts(s, a + t),
    ensures
        text_at(s, a.len() as int, t),
{
    let p = a.len() as int;
    assert forall|i: int| 0 <= i < t.len() implies #[trigger] s.subrange(p, p + t.len())[i] == t[i] by {
        assert((a + t)[p + i] == s[p + i]);
    }
    assert(s.subrange(p, p + t.len()) =~= t);
}

/// What a printable table says of its entry `i`.
proof fn lemma_printable_entry(es: Seq<(Seq<char>, ValueModel)>, i: int)
    requires
        printable(ValueModel::Table(es)),
        0 <= i < es.len(),
    ensures
        distinct_keys(es),
        readable_key(es[i].0),
        is_inline(es[i].1) ==> readable(es[i].1),
        es[i].1 is Table ==> printable(es[i].1),
        (es[i].1 is Array && is_aot(es[i].1->Array_0)) ==> forall|t: int|
            0 <= t < es[i].1->Array_0.len() ==> printable(#[trigger] es[i].1->Array_0[t]),
{
    assert(readable_key(es[i].0));
}

/// The path of a sub-table reads back when its parent's does.
proof fn lemma_path_push(p: Seq<Seq<char>>, key: Seq<char>)
    requires
        readable_path(p),
        readable_key(key),
    ensures
        readable_path(p.push(key)),
        p.push(key).len() >= 1,
{
    assert forall|i: int| 0 <= i < p.push(key).len() implies readable_key(#[trigger] p.push(key)[i]) by {
        if i < p.len() {
            assert(p.push(key)[i] == p[i]);
        }
    }
}

/// Rewriting a text whose first piece ends a line: the first piece comes
/// first, the rest after it.
proof fn lemma_piece(s: Seq<char>, w: Ending, a: Seq<char>, b: Seq<char>)
    requires
        line_done(a),
        starts(s, rewritten(w, a + b)),
    ensures
        starts(s, rewritten(w, a)),
        text_at(s, rewritten(w, a).len() as int, rewritten(w, b)),
        rewritten(w, a + b).len() == rewritten(w, a).len() + rewritten(w, b).len(),
{
    lemma_rewritten_add(w, a, b);
    lemma_starts_add(rewritten(w, a), rewritten(w, b));
    lemma_starts_trans(s, rewritten(w, a + b), rewritten(w, a));
    lemma_text_in(s, rewritten(w, a), rewritten(w, b));
}

/// A text that a longer one starts with, ending a line, is rewritten into
/// what the longer one's rewriting starts with.
proof fn lemma_rw_prefix(s: Seq<char>, w: Ending, a: Seq<char>, b: Seq<char>)
    requires
        starts(b, a),
        line_done(a),
        starts(s, rewritten(w, b)),
    ensures
        starts(s, rewritten(w, a)),
        rewritten(w, a).len() <= rewritten(w, b).len(),
{
    let rest = b.subrange(a.len() as int, b.len() as int);
    assert(b =~= a + rest);
    lemma_piece(s, w, a, rest);
}

/// A header's text, rewritten.
proof fn lemma_rewritten_header(w: Ending, blank: bool, p: Seq<Seq<char>>, aot: bool)
    requires
        p.len() >= 1,
        readable_path(p),
    ensures
        rewritten(w, header_text(blank, p, aot)) == wheader_text(w, blank, p, aot),
        wheader_text(w, blank, p, aot).len() >= 3,
        line_done(header_text(blank, p, aot)),
{
    let x = (if aot { seq!['[', '['] } else { seq!['['] }) + path_text(p) + (if aot { seq![']', ']'] } else { seq![']'] });
    lemma_one_line_path(p);
    lemma_path_first(p);
    assert(one_line(if aot { seq!['[', '['] } else { seq!['['] }));
    assert(one_line(if aot { seq![']', ']'] } else { seq![']'] }));
    lemma_one_line_add(if aot { seq!['[', '['] } else { seq!['['] }, path_text(p));
    lemma_one_line_add((if aot { seq!['[', '['] } else { seq!['['] }) + path_text(p), if aot { seq![']', ']'] } else { seq![']'] });
    lemma_rewritten_line(w, x);
    if blank {
        assert(header_text(blank, p, aot) =~= seq!['\n'] + (x + seq!['\n']));
        lemma_rewritten_add(w, seq!['\n'], x + seq!['\n']);
        lemma_rewritten_blank(w);
        assert(wheader_text(w, blank, p, aot) =~= blank_eol(w) + (x + eol(w)));
    } else {
        assert(header_text(blank, p, aot) =~= x + seq!['\n']);
        assert(wheader_text(w, blank, p, aot) =~= x + eol(w));
    }
}

/// The `key = value` lines of the table `es` at `path`, whose node `j`
/// starts empty, with line ends written as `w` says: after the first `k`
/// of its entries, node `j` holds those of them written inline.
#[verifier::rlimit(60)]
proof fn lemma_scalars(
    s: Seq<char>,
    w: Ending,
    out: Seq<char>,
    es: Seq<(Seq<char>, ValueModel)>,
    path: Seq<Seq<char>>,
    n: Seq<NodeModel>,
    j: int,
    k: nat,
)
    requires
        starts(s, rewritten(w, scalars_text(out, es, k))),
        line_done(out),
        ending_ok(w),
        k <= es.len(),
        printable(ValueModel::Table(es)),
        arena_wf(n),
        0 <= j < n.len(),
        n[j] == Seq::<(Seq<char>, TrackedModel)>::empty(),
        nav(n, 0, path) == Some(j),
    ensures
        document_spec(s, at(rewritten(w, out).len() as int), n, path)
            == document_spec(s, at(rewritten(w, scalars_text(out, es, k)).len() as int), n.update(j, inline_node(es, k)), path),
    decreases k,
{
    if k == 0 {
        assert(inline_node(es, 0) =~= n[j]);
        assert(n.update(j, inline_node(es, 0)) =~= n);
    } else {
        let o = scalars_text(out, es, (k - 1) as nat);
        lemma_ext_scalars(out, es, k);
        lemma_ext_scalars(out, es, (k - 1) as nat);
        lemma_rw_prefix(s, w, o, scalars_text(out, es, k));
        lemma_scalars(s, w, out, es, path, n, j, (k - 1) as nat);
        let key = es[k - 1].0;
        let v = es[k - 1].1;
        if is_inline(v) {
            let line = line_text((key, v));
            assert(scalars_text(out, es, k) =~= o + line);
            lemma_piece(s, w, o, line);
            lemma_printable_entry(es, k - 1);
            lemma_rewritten_keyval(w, key, v);
            let m = n.update(j, inline_node(es, (k - 1) as nat));
            lemma_inline_node(n, j, es, (k - 1) as nat);
            lemma_nav_frame(n, m, path, j);
            assert forall|x: int| 0 <= x < tree_model(m, j).len() implies #[trigger] tree_model(m, j)[x].0 != key by {
                lemma_inline_from(es, (k - 1) as nat, x);
            }
            lemma_fresh(m, j, key);
            lemma_keyval_effect(m, path, j, key, v);
            lemma_doc_keyval_w(s, rewritten(w, o).len() as int, key, v, w, m, path);
            assert(inline_part(es, k) == inline_part(es, (k - 1) as nat).push(es[k - 1]));
            assert(m[j].push((key, TrackedModel::Defined(v))) =~= inline_node(es, k));
            assert(m.update(j, m[j].push((key, TrackedModel::Defined(v)))) =~= n.update(j, inline_node(es, k)));
        } else {
            assert(scalars_text(out, es, k) == o);
            assert(inline_part(es, k) == inline_part(es, (k - 1) as nat));
        }
    }
}

/// Whether the printer puts a blank line before a header written after `o`.
pub open spec fn blank_before(o: Seq<char>) -> bool {
    o.len() > 0 && !ends_blank(o)
}

proof fn lemma_before_header(o: Seq<char>, p: Seq<Seq<char>>, aot: bool)
    ensures
        !aot ==> before_header(o) + seq!['['] + path_text(p) + seq![']', '\n'] =~= o + header_text(blank_before(o), p, false),
        aot ==> before_header(o) + seq!['[', '['] + path_text(p) + seq![']', ']', '\n'] =~= o + header_text(blank_before(o), p, true),
{
}

/// The entries read from the first `k` tables of an array of tables.
proof fn lemma_aot_prefix(n: Seq<NodeModel>, id: int, ids: Seq<usize>, ids2: Seq<usize>, k: nat)
    requires
        k <= ids.len(),
        k <= ids2.len(),
        forall|i: int| 0 <= i < k ==> #[trigger] ids[i] == ids2[i],
    ensures
        aot_values(n, id, ids, k) == aot_values(n, id, ids2, k),
    decreases k,
{
    if k > 0 {
        lemma_aot_prefix(n, id, ids, ids2, (k - 1) as nat);
    }
}

/// A header after `o`, and the table under it: where each is in `s`.
proof fn lemma_section_text(s: Seq<char>, w: Ending, o: Seq<char>, blank: bool, p: Seq<Seq<char>>, aot: bool, es: Seq<(Seq<char>, ValueModel)>)
    requires
        line_done(o),
        p.len() >= 1,
        readable_path(p),
        starts(s, rewritten(w, table_text(o + header_text(blank, p, aot), es, p))),
    ensures
        starts(s, rewritten(w, o)),
        text_at(s, rewritten(w, o).len() as int, wheader_text(w, blank, p, aot)),
        rewritten(w, o + header_text(blank, p, aot)).len() == rewritten(w, o).len() + wheader_text(w, blank, p, aot).len(),
        line_done(o + header_text(blank, p, aot)),
        starts(s, rewritten(w, o + header_text(blank, p, aot))),
{
    let h = header_text(blank, p, aot);
    let x = o + h;
    lemma_rewritten_header(w, blank, p, aot);
    assert(line_done(x)) by {
        assert(x.last() == h.last());
    }
    lemma_ext_table(x, es, p);
    lemma_rw_prefix(s, w, x, table_text(x, es, p));
    lemma_piece(s, w, o, h);
}

/// The text of the table `es` at `path`, its line ends written as `w`
/// says, is read, its node `j` starting empty: afterwards node `j` holds
/// the table's entries in the order they are read back, and only node `j`
/// and new nodes have changed.
proof fn lemma_table(
    s: Seq<char>,
    w: Ending,
    out: Seq<char>,
    es: Seq<(Seq<char>, ValueModel)>,
    path: Seq<Seq<char>>,
    n: Seq<NodeModel>,
    j: int,
) -> (r: (Seq<NodeModel>, Seq<Seq<char>>))
    requires
        starts(s, rewritten(w, table_text(out, es, path))),
        line_done(out),
        ending_ok(w),
        s.len() < u32::MAX,
        printable(ValueModel::Table(es)),
        readable_path(path),
        arena_wf(n),
        0 <= j,
        j == n.len() - 1,
        n[j] == Seq::<(Seq<char>, TrackedModel)>::empty(),
        nav(n, 0, path) == Some(j),
        n.len() <= rewritten(w, out).len() + 1,
    ensures
        document_spec(s, at(rewritten(w, out).len() as int), n, path)
            == document_spec(s, at(rewritten(w, table_text(out, es, path)).len() as int), r.0, r.1),
        arena_wf(r.0),
        untouched(n, r.0, j),
        tree_model(r.0, j) == reordered(es),
        r.0.len() <= rewritten(w, table_text(out, es, path)).len() + 1,
    decreases es, 3nat, 0nat,
{
    let o1 = scalars_text(out, es, es.len());
    let o2 = subtables_text(o1, es, path, es.len());
    lemma_ext_table(out, es, path);
    lemma_ext_scalars(out, es, es.len());
    lemma_ext_subs(o1, es, path, es.len());
    lemma_ext_aots(o2, es, path, es.len());
    lemma_rw_prefix(s, w, o2, table_text(out, es, path));
    lemma_rw_prefix(s, w, o1, o2);
    lemma_rw_prefix(s, w, out, o1);
    lemma_scalars(s, w, out, es, path, n, j, es.len());
    let n1 = n.update(j, inline_node(es, es.len()));
    lemma_inline_node(n, j, es, es.len());
    lemma_nav_frame(n, n1, path, j);
    let r1 = lemma_subs(s, w, o1, es, path, n1, j, es.len(), path);
    let m1 = r1.0;
    lemma_nav_frame(n1, m1, path, j);
    let r2 = lemma_aots(s, w, o2, es, path, m1, j, es.len(), r1.1);
    lemma_untouched_trans(n, n1, m1, j, j);
    lemma_untouched_trans(n, m1, r2.0, j, j);
    r2
}

/// The sub-tables among the first `k` entries of the table `es` at
/// `path`, each under its header: node `j` gets an entry for each.
proof fn lemma_subs(
    s: Seq<char>,
    w: Ending,
    out: Seq<char>,
    es: Seq<(Seq<char>, ValueModel)>,
    path: Seq<Seq<char>>,
    n: Seq<NodeModel>,
    j: int,
    k: nat,
    q: Seq<Seq<char>>,
) -> (r: (Seq<NodeModel>, Seq<Seq<char>>))
    requires
        starts(s, rewritten(w, subtables_text(out, es, path, k))),
        line_done(out),
        ending_ok(w),
        s.len() < u32::MAX,
        k <= es.len(),
        printable(ValueModel::Table(es)),
        readable_path(path),
        arena_wf(n),
        0 <= j < n.len(),
        nav(n, 0, path) == Some(j),
        tree_model(n, j) == inline_part(es, es.len()),
        n.len() <= rewritten(w, out).len() + 1,
    ensures
        document_spec(s, at(rewritten(w, out).len() as int), n, q)
            == document_spec(s, at(rewritten(w, subtables_text(out, es, path, k)).len() as int), r.0, r.1),
        arena_wf(r.0),
        untouched(n, r.0, j),
        tree_model(r.0, j) == inline_part(es, es.len()) + table_part(es, k),
        r.0.len() <= rewritten(w, subtables_text(out, es, path, k)).len() + 1,
    decreases es, 2nat, k,
{
    if k == 0 {
        assert(inline_part(es, es.len()) + table_part(es, 0) =~= inline_part(es, es.len()));
        (n, q)
    } else {
        let o = subtables_text(out, es, path, (k - 1) as nat);
        lemma_ext_subs(out, es, path, k);
        lemma_ext_subs(out, es, path, (k - 1) as nat);
        lemma_rw_prefix(s, w, o, subtables_text(out, es, path, k));
        let r0 = lemma_subs(s, w, out, es, path, n, j, (k - 1) as nat, q);
        let m = r0.0;
        assert(decreases_to!(es => es[k - 1]));
        match es[k - 1].1 {
            ValueModel::Table(sub) => {
                let key = es[k - 1].0;
                let p2 = path.push(key);
                let blank = blank_before(o);
                let x = o + header_text(blank, p2, false);
                lemma_before_header(o, p2, false);
                assert(subtables_text(out, es, path, k) == table_text(x, sub, p2));
                lemma_printable_entry(es, k - 1);
                lemma_path_push(path, key);
                lemma_section_text(s, w, o, blank, p2, false, sub);
                lemma_rewritten_header(w, blank, p2, false);
                let po = rewritten(w, o).len() as int;
                lemma_doc_header(s, po, w, blank, p2, false, m, r0.1);
                lemma_nav_frame(n, m, path, j);
                lemma_key_unseen(es, k - 1, (k - 1) as nat, 0);
                assert(inline_part(es, es.len()) + table_part(es, (k - 1) as nat) + aot_part(es, 0)
                    =~= inline_part(es, es.len()) + table_part(es, (k - 1) as nat));
                lemma_fresh(m, j, key);
                lemma_open_effect(m, path, j, key);
                let c = m.len() as int;
                let m1 = open_table_spec(m, p2).unwrap();
                assert(m1[c] == Seq::<(Seq<char>, TrackedModel)>::empty());
                let r2 = lemma_table(s, w, x, sub, p2, m1, c);
                let m2 = r2.0;
                // The table at node `j` has gained the sub-table.
                let kk = m[j].len();
                assert(m2[j] == m1[j]);
                assert(m1[j] == m[j].push((key, TrackedModel::Implicit(c, true))));
                assert forall|a: int| j < a < m.len() implies #[trigger] m2[a] == m[a] by {
                    assert(m2[a] == m1[a]);
                }
                lemma_entries_frame(m, m2, j, kk);
                assert(tree_model(m2, j) == node_entries(m2, j, kk).push((key, entry_value(m2, j, TrackedModel::Implicit(c, true)))));
                assert(table_part(es, k) == table_part(es, (k - 1) as nat).push((key, ValueModel::Table(reordered(sub)))));
                assert(tree_model(m2, j) =~= inline_part(es, es.len()) + table_part(es, k));
                assert(untouched(m, m1, j));
                lemma_untouched_trans(n, m, m1, j, j);
                lemma_untouched_trans(n, m1, m2, j, c);
                r2
            },
            _ => {
                assert(subtables_text(out, es, path, k) == o);
                assert(table_part(es, k) == table_part(es, (k - 1) as nat));
                r0
            },
        }
    }
}

/// The arrays of tables among the first `k` entries of the table `es` at
/// `path`, each table under its header: node `j` gets an entry for each.
proof fn lemma_aots(
    s: Seq<char>,
    w: Ending,
    out: Seq<char>,
    es: Seq<(Seq<char>, ValueModel)>,
    path: Seq<Seq<char>>,
    n: Seq<NodeModel>,
    j: int,
    k: nat,
    q: Seq<Seq<char>>,
) -> (r: (Seq<NodeModel>, Seq<Seq<char>>))
    requires
        starts(s, rewritten(w, aots_text(out, es, path, k))),
        line_done(out),
        ending_ok(w),
        s.len() < u32::MAX,
        k <= es.len(),
        printable(ValueModel::Table(es)),
        readable_path(path),
        arena_wf(n),
        0 <= j < n.len(),
        nav(n, 0, path) == Some(j),
        tree_model(n, j) == inline_part(es, es.len()) + table_part(es, es.len()),
        n.len() <= rewritten(w, out).len() + 1,
    ensures
        document_spec(s, at(rewritten(w, out).len() as int), n, q)
            == document_spec(s, at(rewritten(w, aots_text(out, es, path, k)).len() as int), r.0, r.1),
        arena_wf(r.0),
        untouched(n, r.0, j),
        tree_model(r.0, j) == inline_part(es, es.len()) + table_part(es, es.len()) + aot_part(es, k),
        r.0.len() <= rewritten(w, aots_text(out, es, path, k)).len() + 1,
    decreases es, 2nat, k,
{
    if k == 0 {
        assert(inline_part(es, es.len()) + table_part(es, es.len()) + aot_part(es, 0)
            =~= inline_part(es, es.len()) + table_part(es, es.len()));
        (n, q)
    } else {
        let o = aots_text(out, es, path, (k - 1) as nat);
        lemma_ext_aots(out, es, path, k);
        lemma_ext_aots(out, es, path, (k - 1) as nat);
        lemma_rw_prefix(s, w, o, aots_text(out, es, path, k));
        let r0 = lemma_aots(s, w, out, es, path, n, j, (k - 1) as nat, q);
        let m = r0.0;
        assert(decreases_to!(es => es[k - 1]));
        let key = es[k - 1].0;
        match es[k - 1].1 {
            ValueModel::Array(arr) => {
                if is_aot(arr) {
                    assert(aots_text(out, es, path, k) == aot_tables_text(o, arr, path.push(key), arr.len()));
                    lemma_printable_entry(es, k - 1);
                    lemma_path_push(path, key);
                    lemma_nav_frame(n, m, path, j);
                    lemma_key_unseen(es, k - 1, es.len(), (k - 1) as nat);
                    lemma_fresh(m, j, key);
                    let r2 = lemma_aot_elems(s, w, o, arr, path, key, m, j, arr.len(), r0.1);
                    let m2 = r2.0;
                    let kk = m[j].len();
                    assert forall|i: int| 0 <= i < kk implies #[trigger] m2[j][i] == m[j][i] by {
                        assert(m2[j].drop_last()[i] == m2[j][i]);
                    }
                    lemma_entries_frame(m, m2, j, kk);
                    assert(tree_model(m2, j) == node_entries(m2, j, kk).push((key, entry_value(m2, j, m2[j].last().1))));
                    assert(aot_part(es, k) == aot_part(es, (k - 1) as nat).push((key, ValueModel::Array(reordered_tables(arr, arr.len())))));
                    assert(tree_model(m2, j) =~= inline_part(es, es.len()) + table_part(es, es.len()) + aot_part(es, k));
                    lemma_untouched_trans(n, m, m2, j, j);
                    r2
                } else {
                    assert(aots_text(out, es, path, k) == o);
                    assert(aot_part(es, k) == aot_part(es, (k - 1) as nat));
                    r0
                }
            },
            _ => {
                assert(aots_text(out, es, path, k) == o);
                assert(aot_part(es, k) == aot_part(es, (k - 1) as nat));
                r0
            },
        }
    }
}

/// The first `t` tables of the array of tables `arr` at `path.key`, each
/// under its `[[path.key]]` header: the table at node `j` (the one at
/// `path`) gets the array, as its last entry, holding those tables.
proof fn lemma_aot_elems(
    s: Seq<char>,
    w: Ending,
    out: Seq<char>,
    arr: Seq<ValueModel>,
    path: Seq<Seq<char>>,
    key: Seq<char>,
    n: Seq<NodeModel>,
    j: int,
    t: nat,
    q: Seq<Seq<char>>,
) -> (r: (Seq<NodeModel>, Seq<Seq<char>>))
    requires
        starts(s, rewritten(w, aot_tables_text(out, arr, path.push(key), t))),
        line_done(out),
        ending_ok(w),
        s.len() < u32::MAX,
        t <= arr.len(),
        is_aot(arr),
        forall|u: int| 0 <= u < arr.len() ==> printable(#[trigger] arr[u]),
        readable_path(path.push(key)),
        arena_wf(n),
        0 <= j < n.len(),
        nav(n, 0, path) == Some(j),
        find_key(n[j], key) is None,
        n.len() <= rewritten(w, out).len() + 1,
    ensures
        document_spec(s, at(rewritten(w, out).len() as int), n, q)
            == document_spec(s, at(rewritten(w, aot_tables_text(out, arr, path.push(key), t)).len() as int), r.0, r.1),
        arena_wf(r.0),
        untouched(n, r.0, j),
        r.0.len() <= rewritten(w, aot_tables_text(out, arr, path.push(key), t)).len() + 1,
        t == 0 ==> r.0 == n,
        t > 0 ==> {
            &&& r.0[j].len() == n[j].len() + 1
            &&& r.0[j].drop_last() == n[j]
            &&& r.0[j].last().0 == key
            &&& r.0[j].last().1 is Aot
            &&& r.0[j].last().1->Aot_0.len() == t
            &&& entry_value(r.0, j, r.0[j].last().1) == ValueModel::Array(reordered_tables(arr, t))
        },
    decreases arr, 1nat, t,
{
    if t == 0 {
        (n, q)
    } else {
        let p2 = path.push(key);
        let o = aot_tables_text(out, arr, p2, (t - 1) as nat);
        lemma_ext_aot_tables(out, arr, p2, t);
        lemma_ext_aot_tables(out, arr, p2, (t - 1) as nat);
        lemma_rw_prefix(s, w, o, aot_tables_text(out, arr, p2, t));
        let r0 = lemma_aot_elems(s, w, out, arr, path, key, n, j, (t - 1) as nat, q);
        let m = r0.0;
        assert(arr[t - 1] is Table);
        let elem = arr[t - 1]->Table_0;
        assert(decreases_to!(arr => arr[t - 1]));
        let blank = blank_before(o);
        let x = o + header_text(blank, p2, true);
        lemma_before_header(o, p2, true);
        assert(aot_tables_text(out, arr, p2, t) == table_text(x, elem, p2));
        lemma_section_text(s, w, o, blank, p2, true, elem);
        lemma_rewritten_header(w, blank, p2, true);
        let po = rewritten(w, o).len() as int;
        lemma_doc_header(s, po, w, blank, p2, true, m, r0.1);
        lemma_nav_frame(n, m, path, j);
        let c = m.len() as int;
        assert(printable(arr[t - 1]));
        if t == 1 {
            lemma_first_aot_effect(m, path, j, key);
        } else {
            assert(m[j].drop_last() == n[j]);
            lemma_next_aot_effect(m, path, j, key, m[j].last().1->Aot_0);
        }
        let m1 = append_aot_spec(m, p2).unwrap();
        assert(m1[c] == Seq::<(Seq<char>, TrackedModel)>::empty());
        let r2 = lemma_table(s, w, x, elem, p2, m1, c);
        let m2 = r2.0;
        assert(m2[j] == m1[j]);
        assert(untouched(m, m1, j));
        lemma_untouched_trans(n, m, m1, j, j);
        lemma_untouched_trans(n, m1, m2, j, c);
        // The array at the last entry of node `j` now ends with node `c`.
        let ids2 = m2[j].last().1->Aot_0;
        assert(ids2.len() == t);
        assert(ids2[t - 1] == c as usize);
        assert(refs_ok(m2[j].last().1, j, m2.len() as int)) by {
            assert(m2[j].last() == m2[j][m2[j].len() - 1]);
        }
        assert(j < c < m2.len());
        assert(aot_values(m2, j, ids2, t) == aot_values(m2, j, ids2, (t - 1) as nat).push(ValueModel::Table(tree_model(m2, c))));
        if t == 1 {
            assert(aot_values(m2, j, ids2, 0) == Seq::<ValueModel>::empty());
        } else {
            let ids = m[j].last().1->Aot_0;
            assert(ids2 == ids.push(c as usize));
            lemma_aot_prefix(m2, j, ids, ids2, (t - 1) as nat);
            assert(refs_ok(m[j].last().1, j, m.len() as int)) by {
                assert(m[j].last() == m[j][m[j].len() - 1]);
            }
            assert forall|u: int| 0 <= u < ids.len() implies j < #[trigger] ids[u] && ids[u] < m.len() by {
            }
            assert forall|a: int| j < a < m.len() implies #[trigger] m2[a] == m[a] by {
                assert(m2[a] == m1[a]);
            }
            lemma_aot_frame(m, m2, j, ids, (t - 1) as nat);
        }
        assert(reordered_tables(arr, t) == reordered_tables(arr, (t - 1) as nat).push(ValueModel::Table(reordered(elem))));
        assert(m2[j].drop_last() =~= n[j]);
        r2
    }
}

/// A printable table, printed as a document whose line ends are then
/// written as `w` says, is read back with its entries reordered.
proof fn lemma_document(w: Ending, es: Seq<(Seq<char>, ValueModel)>)
    requires
        printable(ValueModel::Table(es)),
        ending_ok(w),
        rewritten(w, document_text(ValueModel::Table(es))).len() < u32::MAX,
    ensures
        parse_spec(rewritten(w, document_text(ValueModel::Table(es))))
            == Ok::<ValueModel, (Option<int>, Seq<char>)>(ValueModel::Table(reordered(es))),
{
    let s = rewritten(w, document_text(ValueModel::Table(es)));
    let e = Seq::<char>::empty();
    let n = seq![Seq::<(Seq<char>, TrackedModel)>::empty()];
    assert(document_text(ValueModel::Table(es)) == table_text(e, es, Seq::empty()));
    assert(arena_wf(n));
    assert(nav(n, 0, Seq::empty()) == Some(0int));
    assert(readable_path(Seq::<Seq<char>>::empty()));
    assert(start(s) == at(0));
    assert(rewritten(w, e) == e);
    let r = lemma_table(s, w, e, es, Seq::empty(), n, 0);
    lemma_doc_end(s, r.0, r.1);
}

/// A printable table, printed as a document, is read back as the same
/// table, the entries of each of its tables in the order the printer writes
/// them: values written inline first, then sub-tables, then arrays of
/// tables. (The document must be short enough to be read at all.)
pub proof fn law_document_reads_back(es: Seq<(Seq<char>, ValueModel)>)
    requires
        printable(ValueModel::Table(es)),
        document_text(ValueModel::Table(es)).len() < u32::MAX,
    ensures
        parse_spec(document_text(ValueModel::Table(es))) == Ok::<ValueModel, (Option<int>, Seq<char>)>(ValueModel::Table(reordered(es))),
{
    lemma_rewritten_lf(document_text(ValueModel::Table(es)));
    lemma_document(Ending::Lf, es);
}

/// The same document with each `\n` written as `\r\n` is read back the
/// same way.
pub proof fn law_crlf_document_reads_back(es: Seq<(Seq<char>, ValueModel)>)
    requires
        printable(ValueModel::Table(es)),
        rewritten(Ending::Crlf, document_text(ValueModel::Table(es))).len() < u32::MAX,
    ensures
        parse_spec(rewritten(Ending::Crlf, document_text(ValueModel::Table(es))))
            == parse_spec(document_text(ValueModel::Table(es))),
        parse_spec(rewritten(Ending::Crlf, document_text(ValueModel::Table(es))))
            == Ok::<ValueModel, (Option<int>, Seq<char>)>(ValueModel::Table(reordered(es))),
{
    lemma_document(Ending::Crlf, es);
    lemma_rewritten_len(Ending::Crlf, document_text(ValueModel::Table(es)));
    lemma_rewritten_lf(document_text(ValueModel::Table(es)));
    lemma_document(Ending::Lf, es);
}

/// The same document with a comment (` # ` and a text without control
/// characters) at the end of each line that is not blank is read back the
/// same way.
pub proof fn law_commented_document_reads_back(es: Seq<(Seq<char>, ValueModel)>, c: Seq<char>)
    requires
        printable(ValueModel::Table(es)),
        comment_ok(c),
        rewritten(Ending::Comment(c), document_text(ValueModel::Table(es))).len() < u32::MAX,
    ensures
        parse_spec(rewritten(Ending::Comment(c), document_text(ValueModel::Table(es))))
            == parse_spec(document_text(ValueModel::Table(es))),
        parse_spec(rewritten(Ending::Comment(c), document_text(ValueModel::Table(es))))
            == Ok::<ValueModel, (Option<int>, Seq<char>)>(ValueModel::Table(reordered(es))),
{
    lemma_document(Ending::Comment(c), es);
    lemma_rewritten_len(Ending::Comment(c), document_text(ValueModel::Table(es)));
    lemma_rewritten_lf(document_text(ValueModel::Table(es)));
    lemma_document(Ending::Lf, es);
}

/// A key defined twice in a table is refused: two `key = value` lines with
/// the same key read as an error.
pub proof fn law_key_line_twice_refused(key: Seq<char>, v: ValueModel, w: ValueModel)
    requires
        readable_key(key),
        readable(v),
        readable(w),
    ensures
        parse_spec(line_text((key, v)) + line_text((key, w))) is Err,
{
    let l1 = line_text((key, v));
    let l2 = line_text((key, w));
    let s = l1 + l2;
    let n0 = seq![Seq::<(Seq<char>, TrackedModel)>::empty()];
    let root = Seq::<Seq<char>>::empty();
    lemma_starts_add(l1, l2);
    assert(l1 =~= Seq::<char>::empty() + l1);
    lemma_text_in(s, Seq::<char>::empty(), l1);
    lemma_text_in(s, l1, l2);
    assert(nav(n0, 0, root) == Some(0int));
    lemma_find_key(n0[0], key);
    lemma_keyval_effect(n0, root, 0, key, v);
    lemma_doc_keyval(s, 0, key, v, n0, root);
    let n1 = n0.update(0, n0[0].push((key, TrackedModel::Defined(v))));
    assert(nav(n1, 0, root) == Some(0int));
    lemma_find_pushed(n0[0], key, TrackedModel::Defined(v));
    assert(seq![key].drop_last() =~= root);
    assert(seq![key].last() == key);
    assert(keyval_effect(n1, root, seq![key], w) is None);
    lemma_doc_keyval(s, l1.len() as int, key, w, n1, root);
    assert(start(s) == at(0));
}

/// A table opened twice is refused: `[key]`, a `key = value` line, then
/// `[key]` again (after a blank line) read as an error.
pub proof fn law_table_header_twice_refused(key: Seq<char>, k1: Seq<char>, v1: ValueModel)
    requires
        readable_key(key),
        readable_key(k1),
        readable(v1),
    ensures
        parse_spec(header_text(false, seq![key], false) + line_text((k1, v1)) + header_text(true, seq![key], false)) is Err,
{
    let p = seq![key];
    let h1 = header_text(false, p, false);
    let l1 = line_text((k1, v1));
    let h2 = header_text(true, p, false);
    let s = h1 + l1 + h2;
    let n0 = seq![Seq::<(Seq<char>, TrackedModel)>::empty()];
    let root = Seq::<Seq<char>>::empty();
    assert(readable_path(p));
    assert(root.push(key) =~= p);
    lemma_starts_add(h1 + l1, h2);
    lemma_starts_add(h1, l1);
    lemma_starts_trans(s, h1 + l1, h1);
    assert(h1 =~= Seq::<char>::empty() + h1);
    lemma_text_in(s, Seq::<char>::empty(), h1);
    lemma_text_in(s, h1, l1);
    lemma_text_in(s, h1 + l1, h2);
    // The first header opens the table.
    assert(nav(n0, 0, root) == Some(0int));
    lemma_find_key(n0[0], key);
    lemma_open_effect(n0, root, 0, key);
    assert(h1 =~= wheader_text(Ending::Lf, false, p, false));
    lemma_doc_header(s, 0, Ending::Lf, false, p, false, n0, root);
    let n1 = open_table_spec(n0, p).unwrap();
    // The line goes into it.
    lemma_find_key(n1[1], k1);
    lemma_keyval_effect(n1, p, 1, k1, v1);
    lemma_doc_keyval(s, h1.len() as int, k1, v1, n1, p);
    let n2 = n1.update(1, n1[1].push((k1, TrackedModel::Defined(v1))));
    // The second header finds the table already opened.
    assert(n2[0] == n1[0]);
    lemma_find_pushed(n0[0], key, TrackedModel::Implicit(1, true));
    assert(p.drop_last() =~= root);
    assert(walk(n2, 0, root, false) == Some((n2, 0int)));
    assert(open_table_spec(n2, p) is None);
    assert(h2 =~= wheader_text(Ending::Lf, true, p, false));
    lemma_doc_header(s, (h1 + l1).len() as int, Ending::Lf, true, p, false, n2, p);
    assert(start(s) == at(0));
}

/// `k` spaces.
pub open spec fn spaces(k: nat) -> Seq<char> {
    Seq::new(k, |i: int| ' ')
}

proof fn lemma_spaces_at(s: Seq<char>, p: int, k: nat)
    requires
        text_at(s, p, spaces(k)),
    ensures
        forall|i: int| p <= i < p + k ==> #[trigger] s[i] == ' ',
{
    assert forall|i: int| p <= i < p + k implies #[trigger] s[i] == ' ' by {
        lemma_text_char(s, p, spaces(k), i - p);
    }
}

/// The text after the keys of a line `... = "x"` that ends the document:
/// spaces, `=`, spaces, and the string.
pub open spec fn spaced_tail(c: nat, d: nat, x: Seq<char>) -> Seq<char> {
    spaces(c) + seq!['='] + spaces(d) + quoted_text(x)
}

/// After the keys, the rest of such a line is read: no further key, the
/// `=`, the string, and the end of the text.
proof fn lemma_spaced_tail(s: Seq<char>, p: int, c: nat, d: nat, x: Seq<char>, segs: Seq<Seq<char>>)
    requires
        text_at(s, p, spaced_tail(c, d, x)),
        p + spaced_tail(c, d, x).len() == s.len(),
    ensures
        key_rest(s, LexState { pos: p, peeked: None, key_mode: true }, segs)
            == Ok::<(Seq<Seq<char>>, LexState), (Option<int>, Seq<char>)>((segs, LexState { pos: p + c + 1, peeked: Some(TokenModel::Equals), key_mode: true })),
        expect_tok(s, LexState { pos: p + c + 1, peeked: Some(TokenModel::Equals), key_mode: false }, TokenModel::Equals)
            == Ok::<LexState, (Option<int>, Seq<char>)>(at(p + c + 1)),
        value_spec(s, at(p + c + 1))
            == Ok::<(ValueModel, LexState), (Option<int>, Seq<char>)>((ValueModel::String(x), at(s.len() as int))),
        newline_or_eof(s, at(s.len() as int))
            == Ok::<LexState, (Option<int>, Seq<char>)>(LexState { pos: s.len() as int, peeked: Some(TokenModel::Eof), key_mode: false }),
{
    let t = spaced_tail(c, d, x);
    let e = p + c;
    let f = e + 1 + d;
    assert(t =~= spaces(c) + (seq!['='] + spaces(d) + quoted_text(x)));
    lemma_text_sub(s, p, t, 0, c as int);
    assert(t.subrange(0, c as int) =~= spaces(c));
    lemma_spaces_at(s, p, c);
    lemma_text_char(s, p, t, c as int);
    assert(s[e] == '=');
    lemma_text_sub(s, p, t, (c + 1) as int, (c + 1 + d) as int);
    assert(t.subrange((c + 1) as int, (c + 1 + d) as int) =~= spaces(d));
    lemma_spaces_at(s, e + 1, d);
    lemma_text_sub(s, p, t, (c + 1 + d) as int, t.len() as int);
    assert(t.subrange((c + 1 + d) as int, t.len() as int) =~= quoted_text(x));
    if c > 0 {
        lemma_lex_spaces(s, p, e, true);
    }
    lemma_lex_punct(s, e, true);
    lemma_lex_string(s, f, x, false);
    if d > 0 {
        lemma_lex_spaces(s, e + 1, f, false);
    }
    assert(lex_at(s, s.len() as int, false) == Lexed::Tok(TokenModel::Eof, s.len() as int)) by {
        reveal(lex_at);
        assert(skip_trivia(s, s.len() as int) == Trivia::Next(s.len() as int));
    }
}

/// A line `key = "x"`, with any number of spaces around the `=` and
/// nothing after the string, reads as the table holding `key` with the
/// string `x`, whatever the spacing.
pub proof fn law_spaces_around_equals(key: Seq<char>, c: nat, d: nat, x: Seq<char>)
    requires
        readable_key(key),
    ensures
        parse_spec(key_text(key) + spaced_tail(c, d, x))
            == Ok::<ValueModel, (Option<int>, Seq<char>)>(ValueModel::Table(seq![(key, ValueModel::String(x))])),
{
    let kt = key_text(key);
    let t = spaced_tail(c, d, x);
    let s = kt + t;
    let l = kt.len() as int;
    let n0 = seq![Seq::<(Seq<char>, TrackedModel)>::empty()];
    let root = Seq::<Seq<char>>::empty();
    lemma_starts_add(kt, t);
    assert(kt =~= Seq::<char>::empty() + kt);
    lemma_text_in(s, Seq::<char>::empty(), kt);
    lemma_text_in(s, kt, t);
    lemma_text_char(s, l, t, 0);
    assert(t[0] == (if c > 0 { ' ' } else { '=' }));
    lemma_lex_key(s, 0, key, true);
    let kt1 = key_token(key);
    let st1 = LexState { pos: l, peeked: Some(kt1), key_mode: true };
    assert(skip_newlines(s, with_key_mode(at(0), true)) == Ok::<LexState, (Option<int>, Seq<char>)>(st1));
    lemma_spaced_tail(s, l, c, d, x, seq![key]);
    assert(simple_key(s, st1) == Ok::<(Seq<char>, LexState), (Option<int>, Seq<char>)>((key, LexState { pos: l, peeked: None, key_mode: true })));
    // The entry goes into the root table.
    assert(nav(n0, 0, root) == Some(0int));
    lemma_find_key(n0[0], key);
    lemma_keyval_effect(n0, root, 0, key, ValueModel::String(x));
    let n1 = n0.update(0, n0[0].push((key, TrackedModel::Defined(ValueModel::String(x)))));
    let st4 = LexState { pos: s.len() as int, peeked: Some(TokenModel::Eof), key_mode: false };
    assert(keyval_spec(s, st1, n0, root) == Ok::<(Seq<NodeModel>, LexState), (Option<int>, Seq<char>)>((n1, st4)));
    assert(shrinks(s, st4, at(0)));
    assert(document_spec(s, st4, n1, root) == Ok::<Seq<NodeModel>, (Option<int>, Seq<char>)>(n1));
    assert(start(s) == at(0));
    lemma_node_entries(n1, 0, 1);
    assert(tree_model(n1, 0) =~= seq![(key, ValueModel::String(x))]);
}

/// A line `a.b = "x"`, with any number of spaces around the `.` and the
/// `=` and nothing after the string, reads as the table holding `a`, a
/// table holding `b` with the string `x`, whatever the spacing.
#[verifier::rlimit(60)]
pub proof fn law_spaces_around_dot(k1: Seq<char>, k2: Seq<char>, a: nat, b: nat, c: nat, d: nat, x: Seq<char>)
    requires
        readable_key(k1),
        readable_key(k2),
    ensures
        parse_spec(key_text(k1) + spaces(a) + seq!['.'] + spaces(b) + key_text(k2) + spaced_tail(c, d, x))
            == Ok::<ValueModel, (Option<int>, Seq<char>)>(
            ValueModel::Table(seq![(k1, ValueModel::Table(seq![(k2, ValueModel::String(x))]))]),
        ),
{
    let kt = key_text(k1);
    let mid = spaces(a) + seq!['.'] + spaces(b);
    let kt2 = key_text(k2);
    let t = spaced_tail(c, d, x);
    let s = kt + spaces(a) + seq!['.'] + spaces(b) + kt2 + t;
    assert(s =~= kt + mid + kt2 + t);
    let l = kt.len() as int;
    let dot = l + a;
    let p4 = dot + 1 + b;
    let p5 = p4 + kt2.len();
    lemma_starts_add(kt + mid + kt2, t);
    lemma_starts_add(kt + mid, kt2);
    lemma_starts_add(kt, mid);
    lemma_starts_trans(s, kt + mid + kt2, kt + mid);
    lemma_starts_trans(s, kt + mid, kt);
    assert(kt =~= Seq::<char>::empty() + kt);
    lemma_text_in(s, Seq::<char>::empty(), kt);
    lemma_text_in(s, kt, mid);
    lemma_text_in(s, kt + mid, kt2);
    lemma_text_in(s, kt + mid + kt2, t);
    // The characters between the keys.
    lemma_text_sub(s, l, mid, 0, a as int);
    assert(mid.subrange(0, a as int) =~= spaces(a));
    lemma_spaces_at(s, l, a);
    lemma_text_char(s, l, mid, a as int);
    lemma_text_sub(s, l, mid, (a + 1) as int, mid.len() as int);
    assert(mid.subrange((a + 1) as int, mid.len() as int) =~= spaces(b));
    lemma_spaces_at(s, dot + 1, b);
    assert(s[dot] == '.');
    lemma_text_char(s, l, mid, 0);
    assert(s[l] == (if a > 0 { ' ' } else { '.' }));
    lemma_text_char(s, p5, t, 0);
    assert(s[p5] == (if c > 0 { ' ' } else { '=' }));
    // The first key, the dot, the second key.
    lemma_lex_key(s, 0, k1, true);
    if a > 0 {
        lemma_lex_spaces(s, l, dot, true);
    }
    lemma_lex_punct(s, dot, true);
    lemma_lex_key(s, p4, k2, true);
    if b > 0 {
        lemma_lex_spaces(s, dot + 1, p4, true);
    }
    let kt1 = key_token(k1);
    let st1 = LexState { pos: l, peeked: Some(kt1), key_mode: true };
    assert(skip_newlines(s, with_key_mode(at(0), true)) == Ok::<LexState, (Option<int>, Seq<char>)>(st1));
    lemma_spaced_tail(s, p5, c, d, x, seq![k1, k2]);
    assert(simple_key(s, LexState { pos: dot + 1, peeked: None, key_mode: true })
        == Ok::<(Seq<char>, LexState), (Option<int>, Seq<char>)>((k2, LexState { pos: p5, peeked: None, key_mode: true })));
    assert(seq![k1].push(k2) =~= seq![k1, k2]);
    assert(key_rest(s, LexState { pos: l, peeked: None, key_mode: true }, seq![k1])
        == Ok::<(Seq<Seq<char>>, LexState), (Option<int>, Seq<char>)>((seq![k1, k2], LexState { pos: p5 + c + 1, peeked: Some(TokenModel::Equals), key_mode: true })));
    // The entry goes into a new table under the first key.
    let n0 = seq![Seq::<(Seq<char>, TrackedModel)>::empty()];
    let root = Seq::<Seq<char>>::empty();
    let v = ValueModel::String(x);
    assert(nav(n0, 0, root) == Some(0int));
    lemma_find_key(n0[0], k1);
    let n1 = n0.update(0, n0[0].push((k1, TrackedModel::Implicit(1, false)))).push(Seq::<(Seq<char>, TrackedModel)>::empty());
    assert(seq![k1, k2].drop_last() =~= seq![k1]);
    assert(seq![k1].drop_last() =~= root);
    assert(seq![k1, k2].last() == k2);
    assert(step_create(n0, 0, k1, false) == Some((n1, 1int)));
    assert(seq![k1].last() == k1);
    assert(walk(n0, 0, root, false) == Some((n0, 0int)));
    assert(walk(n0, 0, seq![k1], false) == Some((n1, 1int)));
    lemma_find_key(n1[1], k2);
    let n2 = n1.update(1, n1[1].push((k2, TrackedModel::Defined(v))));
    assert(insert_spec(n0, 0, seq![k1, k2], v, false) == Some(n2));
    let st4 = LexState { pos: s.len() as int, peeked: Some(TokenModel::Eof), key_mode: false };
    assert(keyval_spec(s, st1, n0, root) == Ok::<(Seq<NodeModel>, LexState), (Option<int>, Seq<char>)>((n2, st4)));
    assert(shrinks(s, st4, at(0)));
    assert(document_spec(s, st4, n2, root) == Ok::<Seq<NodeModel>, (Option<int>, Seq<char>)>(n2));
    assert(start(s) == at(0));
    lemma_node_entries(n2, 1, 1);
    assert(tree_model(n2, 1) =~= seq![(k2, v)]);
    lemma_node_entries(n2, 0, 1);
    assert(tree_model(n2, 0) =~= seq![(k1, ValueModel::Table(seq![(k2, v)]))]);
}

/// How the lines of a printed document end.
pub ghost enum Ending {
    /// `\n`, as the printer writes them.
    Lf,
    /// `\r\n`.
    Crlf,
    /// A comment: ` # ` and its text, then `\n`, after each line that is
    /// not blank.
    Comment(Seq<char>),
}

/// A comment text the lexer skips: no control characters.
pub open spec fn comment_ok(c: Seq<char>) -> bool {
    forall|i: int| 0 <= i < c.len() ==> !is_control(#[trigger] c[i])
}

/// The end of a line that is not blank.
pub open spec fn eol(w: Ending) -> Seq<char> {
    match w {
        Ending::Lf => seq!['\n'],
        Ending::Crlf => seq!['\r', '\n'],
        Ending::Comment(c) => seq![' ', '#', ' '] + c + seq!['\n'],
    }
}

/// The end of a blank line.
pub open spec fn blank_eol(w: Ending) -> Seq<char> {
    match w {
        Ending::Crlf => seq!['\r', '\n'],
        _ => seq!['\n'],
    }
}

/// The text `t`, whose lines end with `\n`, with its lines ended as `w`
/// says: with `\r\n`, or with a comment after each line that is not blank.
pub open spec fn rewritten(w: Ending, t: Seq<char>) -> Seq<char>
    decreases t.len(),
{
    if t.len() == 0 {
        Seq::empty()
    } else {
        let pre = rewritten(w, t.drop_last());
        if t.last() == '\n' {
            if t.len() >= 2 && t[t.len() - 2] != '\n' {
                pre + eol(w)
            } else {
                pre + blank_eol(w)
            }
        } else {
            pre.push(t.last())
        }
    }
}

/// `t` is empty or ends a line.
pub open spec fn line_done(t: Seq<char>) -> bool {
    t.len() == 0 || t.last() == '\n'
}

/// `t` holds no `\n`.
pub open spec fn one_line(t: Seq<char>) -> bool {
    forall|i: int| 0 <= i < t.len() ==> #[trigger] t[i] != '\n'
}

/// Rewriting goes piece by piece, a piece starting a line.
proof fn lemma_rewritten_add(w: Ending, a: Seq<char>, b: Seq<char>)
    requires
        line_done(a),
    ensures
        rewritten(w, a + b) == rewritten(w, a) + rewritten(w, b),
    decreases b.len(),
{
    if b.len() == 0 {
        assert(a + b =~= a);
        assert(rewritten(w, a) + rewritten(w, b) =~= rewritten(w, a));
    } else {
        lemma_rewritten_add(w, a, b.drop_last());
        assert((a + b).drop_last() =~= a + b.drop_last());
        let t = a + b;
        assert(t.last() == b.last());
        if b.last() == '\n' {
            if b.len() >= 2 {
                assert(t[t.len() - 2] == b[b.len() - 2]);
            } else if a.len() > 0 {
                assert(t[t.len() - 2] == a.last());
            }
        }
    }
}

/// A text with no `\n` is left as it is.
proof fn lemma_rewritten_one_line(w: Ending, t: Seq<char>)
    requires
        one_line(t),
    ensures
        rewritten(w, t) == t,
    decreases t.len(),
{
    if t.len() > 0 {
        assert(one_line(t.drop_last()));
        lemma_rewritten_one_line(w, t.drop_last());
        assert(t.last() == t[t.len() - 1]);
        assert(t.drop_last().push(t.last()) =~= t);
    }
}

/// A line that is not blank ends as `w` says.
proof fn lemma_rewritten_line(w: Ending, t: Seq<char>)
    requires
        one_line(t),
        t.len() >= 1,
    ensures
        rewritten(w, t + seq!['\n']) == t + eol(w),
{
    let u = t + seq!['\n'];
    assert(u.drop_last() =~= t);
    lemma_rewritten_one_line(w, t);
    assert(u[u.len() - 2] == t[t.len() - 1]);
}

/// A blank line ends as `w` says.
proof fn lemma_rewritten_blank(w: Ending)
    ensures
        rewritten(w, seq!['\n']) == blank_eol(w),
{
    let t = seq!['\n'];
    assert(t.drop_last() =~= Seq::<char>::empty());
    assert(t.last() == '\n');
    assert(t.len() == 1);
    assert(rewritten(w, Seq::<char>::empty()) == Seq::<char>::empty());
    assert(Seq::<char>::empty() + blank_eol(w) =~= blank_eol(w));
}

/// Rewriting never shortens a text.
proof fn lemma_rewritten_len(w: Ending, t: Seq<char>)
    ensures
        rewritten(w, t).len() >= t.len(),
    decreases t.len(),
{
    if t.len() > 0 {
        lemma_rewritten_len(w, t.drop_last());
    }
}

/// With `\n` endings, rewriting changes nothing.
proof fn lemma_rewritten_lf(t: Seq<char>)
    ensures
        rewritten(Ending::Lf, t) == t,
    decreases t.len(),
{
    if t.len() > 0 {
        lemma_rewritten_lf(t.drop_last());
        assert(t.drop_last().push(t.last()) =~= t);
        assert(t.drop_last() + seq!['\n'] =~= t.drop_last().push('\n'));
    }
}

proof fn lemma_one_line_add(a: Seq<char>, b: Seq<char>)
    requires
        one_line(a),
        one_line(b),
    ensures
        one_line(a + b),
{
    assert forall|i: int| 0 <= i < (a + b).len() implies #[trigger] (a + b)[i] != '\n' by {
        if i < a.len() {
            assert((a + b)[i] == a[i]);
        } else {
            assert((a + b)[i] == b[i - a.len()]);
        }
    }
}

proof fn lemma_one_line_nat(n: nat)
    ensures
        one_line(nat_digits(n)),
{
    lemma_nat_digits(n);
    assert forall|i: int| 0 <= i < nat_digits(n).len() implies #[trigger] nat_digits(n)[i] != '\n' by {
        assert(is_digit(nat_digits(n)[i]));
    }
}

proof fn lemma_one_line_padded(n: nat, w: nat)
    ensures
        one_line(padded_digits(n, w)),
{
    lemma_one_line_nat(n);
    let d = nat_digits(n);
    if d.len() < w {
        let z = Seq::new((w - d.len()) as nat, |i: int| '0');
        assert(one_line(z));
        lemma_one_line_add(z, d);
    }
}

proof fn lemma_one_line_trim(t: Seq<char>)
    requires
        one_line(t),
    ensures
        one_line(trim_zeros(t)),
    decreases t.len(),
{
    if t.len() > 0 && t.last() == '0' {
        assert(one_line(t.drop_last()));
        lemma_one_line_trim(t.drop_last());
    }
}

proof fn lemma_one_line_hex(n: nat, w: nat)
    ensures
        one_line(hex_digits(n, w)),
    decreases w,
{
    if w > 0 {
        lemma_one_line_hex(n / 16, (w - 1) as nat);
        let d = (n % 16) as int;
        assert(hex_char(d) != '\n') by {
            if d < 10 {
                assert((48 + d) as char as u32 == 48 + d);
            } else {
                assert((55 + d) as char as u32 == 55 + d);
            }
        }
        lemma_one_line_add(hex_digits(n / 16, (w - 1) as nat), seq![hex_char(d)]);
    }
}

proof fn lemma_one_line_escaped(x: Seq<char>)
    ensures
        one_line(escaped(x)),
        one_line(quoted_text(x)),
    decreases x.len(),
{
    if x.len() > 0 {
        lemma_one_line_escaped(x.drop_last());
        let c = x.last();
        if (c as u32) < 0x20 || (c as u32) == 0x7F {
            lemma_one_line_hex(c as u32 as nat, 4);
        }
        assert(one_line(escape_char(c)));
        lemma_one_line_add(escaped(x.drop_last()), escape_char(c));
    }
    lemma_one_line_add(seq!['"'], escaped(x));
    lemma_one_line_add(seq!['"'] + escaped(x), seq!['"']);
}

proof fn lemma_one_line_key(k: Seq<char>)
    ensures
        one_line(key_text(k)),
{
    lemma_one_line_escaped(k);
    if is_bare(k) {
        assert forall|i: int| 0 <= i < k.len() implies #[trigger] k[i] != '\n' by {
            assert(bare_key_char(k[i]));
        }
    }
}

proof fn lemma_one_line_path(p: Seq<Seq<char>>)
    ensures
        one_line(path_text(p)),
    decreases p.len(),
{
    if p.len() == 1 {
        lemma_one_line_key(p[0]);
    } else if p.len() > 1 {
        lemma_one_line_path(p.drop_last());
        lemma_one_line_key(p.last());
        lemma_one_line_add(path_text(p.drop_last()), seq!['.']);
        lemma_one_line_add(path_text(p.drop_last()) + seq!['.'], key_text(p.last()));
    }
}

proof fn lemma_one_line_float(t: Seq<char>)
    requires
        float_text(t),
    ensures
        one_line(t),
{
    if number_float_text(t) {
        let n = t.len() as int;
        let i0: int = if t.len() > 0 && t[0] == '-' { 1 } else { 0 };
        let i1 = digit_end(t, i0);
        let frac = i1 < n && t[i1] == '.';
        let i2 = if frac { digit_end(t, i1 + 1) } else { i1 };
        lemma_digit_end_bounds(t, i0);
        if frac {
            lemma_digit_end_bounds(t, i1 + 1);
        }
        assert forall|j: int| 0 <= j < n implies #[trigger] t[j] != '\n' by {
            if j < i0 {
            } else if j < i1 {
                assert(is_digit(t[j]));
            } else if j == i1 {
            } else if frac && j < i2 {
                assert(is_digit(t[j]));
            } else if j == i2 {
            } else {
                let jj = if i2 + 1 < n && (t[i2 + 1] == '+' || t[i2 + 1] == '-') { i2 + 2 } else { i2 + 1 };
                lemma_digit_end_bounds(t, jj);
                if j >= jj {
                    assert(is_digit(t[j]));
                }
            }
        }
    }
}

proof fn lemma_one_line_time(t: LocalTime)
    ensures
        one_line(time_text(t)),
{
    lemma_one_line_padded(t.hour as nat, 2);
    lemma_one_line_padded(t.minute as nat, 2);
    lemma_one_line_padded(t.second as nat, 2);
    lemma_one_line_padded(t.nanosecond as nat, 9);
    lemma_one_line_trim(padded_digits(t.nanosecond as nat, 9));
    let hh = padded_digits(t.hour as nat, 2);
    let mm = padded_digits(t.minute as nat, 2);
    let ss = padded_digits(t.second as nat, 2);
    lemma_one_line_add(hh, seq![':']);
    lemma_one_line_add(hh + seq![':'], mm);
    lemma_one_line_add(hh + seq![':'] + mm, seq![':']);
    lemma_one_line_add(hh + seq![':'] + mm + seq![':'], ss);
    let hms = hh + seq![':'] + mm + seq![':'] + ss;
    lemma_one_line_add(hms, seq!['.']);
    lemma_one_line_add(hms + seq!['.'], trim_zeros(padded_digits(t.nanosecond as nat, 9)));
}

proof fn lemma_one_line_date(d: LocalDate)
    ensures
        one_line(date_text(d)),
{
    lemma_one_line_padded(d.year as nat, 4);
    lemma_one_line_padded(d.month as nat, 2);
    lemma_one_line_padded(d.day as nat, 2);
    let y = padded_digits(d.year as nat, 4);
    let m = padded_digits(d.month as nat, 2);
    lemma_one_line_add(y, seq!['-']);
    lemma_one_line_add(y + seq!['-'], m);
    lemma_one_line_add(y + seq!['-'] + m, seq!['-']);
    lemma_one_line_add(y + seq!['-'] + m + seq!['-'], padded_digits(d.day as nat, 2));
}

proof fn lemma_one_line_offset(o: UtcOffset)
    ensures
        one_line(offset_text(o)),
{
    if let UtcOffset::Minutes(m) = o {
        let z = offset_size(m);
        lemma_one_line_padded(z / 60, 2);
        lemma_one_line_padded(z % 60, 2);
        let sg = seq![if m >= 0 { '+' } else { '-' }];
        lemma_one_line_add(sg, padded_digits(z / 60, 2));
        lemma_one_line_add(sg + padded_digits(z / 60, 2), seq![':']);
        lemma_one_line_add(sg + padded_digits(z / 60, 2) + seq![':'], padded_digits(z % 60, 2));
    }
}

/// The inline text of a value the parser reads back fits on one line.
proof fn lemma_one_line_inline(v: ValueModel)
    requires
        readable(v),
    ensures
        one_line(inline_text(v)),
    decreases v, 0nat,
{
    match v {
        ValueModel::String(x) => {
            lemma_one_line_escaped(x);
        },
        ValueModel::Integer(n) => {
            if n < 0 {
                lemma_one_line_nat((-(n as int)) as nat);
                lemma_one_line_add(seq!['-'], nat_digits((-(n as int)) as nat));
            } else {
                lemma_one_line_nat(n as nat);
            }
        },
        ValueModel::Float(t) => {
            lemma_one_line_float(t);
        },
        ValueModel::Boolean(b) => {},
        ValueModel::OffsetDateTime(d) => {
            lemma_one_line_date(d.date);
            lemma_one_line_time(d.time);
            lemma_one_line_offset(d.offset);
            lemma_one_line_add(date_text(d.date), seq!['T']);
            lemma_one_line_add(date_text(d.date) + seq!['T'], time_text(d.time));
            lemma_one_line_add(date_text(d.date) + seq!['T'] + time_text(d.time), offset_text(d.offset));
        },
        ValueModel::LocalDateTime(d) => {
            lemma_one_line_date(d.date);
            lemma_one_line_time(d.time);
            lemma_one_line_add(date_text(d.date), seq!['T']);
            lemma_one_line_add(date_text(d.date) + seq!['T'], time_text(d.time));
        },
        ValueModel::LocalDate(d) => {
            lemma_one_line_date(d);
        },
        ValueModel::LocalTime(t) => {
            lemma_one_line_time(t);
        },
        ValueModel::Array(vs) => {
            assert(decreases_to!(v => vs));
            lemma_one_line_items(vs, vs.len());
            let a = items_text(vs, vs.len());
            lemma_one_line_add(seq!['[', ' '], a);
            lemma_one_line_add(seq!['[', ' '] + a, seq![' ', ']']);
        },
        ValueModel::Table(es) => {
            assert(decreases_to!(v => es));
            assert forall|i: int| 0 <= i < es.len() implies readable(#[trigger] es[i].1) by {
                assert(readable_key(es[i].0));
            }
            lemma_one_line_pairs(es, es.len());
            let a = pairs_text(es, es.len());
            lemma_one_line_add(seq!['{', ' '], a);
            lemma_one_line_add(seq!['{', ' '] + a, seq![' ', '}']);
        },
    }
}

proof fn lemma_one_line_items(vs: Seq<ValueModel>, k: nat)
    requires
        forall|i: int| 0 <= i < vs.len() ==> readable(#[trigger] vs[i]),
    ensures
        one_line(items_text(vs, k)),
    decreases vs, k,
{
    if k > 0 && k <= vs.len() {
        lemma_one_line_items(vs, (k - 1) as nat);
        let pre = items_text(vs, (k - 1) as nat);
        lemma_one_line_inline(vs[k - 1]);
        lemma_one_line_add(pre, seq![',', ' ']);
        let p2 = if k > 1 { pre + seq![',', ' '] } else { pre };
        lemma_one_line_add(p2, inline_text(vs[k - 1]));
    }
}

proof fn lemma_one_line_pairs(es: Seq<(Seq<char>, ValueModel)>, k: nat)
    requires
        forall|i: int| 0 <= i < es.len() ==> readable(#[trigger] es[i].1),
    ensures
        one_line(pairs_text(es, k)),
    decreases es, k,
{
    if k > 0 && k <= es.len() {
        lemma_one_line_pairs(es, (k - 1) as nat);
        let pre = pairs_text(es, (k - 1) as nat);
        assert(decreases_to!(es => es[k - 1]));
        assert(readable(es[k - 1].1));
        lemma_one_line_inline(es[k - 1].1);
        lemma_one_line_key(es[k - 1].0);
        lemma_one_line_add(pre, seq![',', ' ']);
        let p2 = if k > 1 { pre + seq![',', ' '] } else { pre };
        lemma_one_line_add(p2, key_text(es[k - 1].0));
        lemma_one_line_add(p2 + key_text(es[k - 1].0), seq![' ', '=', ' ']);
        lemma_one_line_add(p2 + key_text(es[k - 1].0) + seq![' ', '=', ' '], inline_text(es[k - 1].1));
    }
}

/// The endings the lexer reads as line ends: a comment must hold no
/// control character.
pub open spec fn ending_ok(w: Ending) -> bool {
    match w {
        Ending::Comment(c) => comment_ok(c),
        _ => true,
    }
}

proof fn lemma_comment_scan(s: Seq<char>, start: int, i: int, e: int)
    requires
        0 <= start < i <= e < s.len(),
        forall|j: int| i <= j < e ==> !is_control(#[trigger] s[j]),
        s[e] == '\n',
    ensures
        comment_scan(s, start, i) == skip_trivia(s, e),
    decreases e - i,
{
    if i < e {
        assert(!is_control(s[i]));
        lemma_comment_scan(s, start, i + 1, e);
    }
}

/// The end of a line, as `w` writes it, is read as a newline; a value or
/// a bracket may come just before it.
proof fn lemma_eol(s: Seq<char>, f: int, w: Ending, key_mode: bool)
    requires
        ending_ok(w),
        text_at(s, f, eol(w)),
    ensures
        f < s.len(),
        lex_at(s, f, key_mode) == Lexed::Tok(TokenModel::Newline, f + eol(w).len()),
        ended(s, f),
        s[f] != ']',
        s[f] != '"',
        !bare_key_char(s[f]),
{
    reveal(lex_at);
    let t = eol(w);
    lemma_text_char(s, f, t, 0);
    match w {
        Ending::Lf => {
            assert(skip_trivia(s, f) == Trivia::Next(f));
        },
        Ending::Crlf => {
            lemma_text_char(s, f, t, 1);
            assert(skip_trivia(s, f) == Trivia::Next(f));
        },
        Ending::Comment(c) => {
            let e = f + 3 + c.len();
            lemma_text_char(s, f, t, 1);
            lemma_text_char(s, f, t, 2);
            lemma_text_char(s, f, t, t.len() - 1);
            assert(s[e] == '\n');
            assert forall|j: int| f + 2 <= j < e implies !is_control(#[trigger] s[j]) by {
                lemma_text_char(s, f, t, j - f);
                if j > f + 2 {
                    assert(t[j - f] == c[j - f - 3]);
                }
            }
            lemma_comment_scan(s, f + 1, f + 2, e);
            assert(skip_trivia(s, e) == Trivia::Next(e));
            assert(skip_trivia(s, f + 1) == comment_scan(s, f + 1, f + 2));
        },
    }
}

/// A blank line, as `w` writes it, is read as a newline.
proof fn lemma_blank_eol(s: Seq<char>, p: int, w: Ending, key_mode: bool)
    requires
        text_at(s, p, blank_eol(w)),
    ensures
        lex_at(s, p, key_mode) == Lexed::Tok(TokenModel::Newline, p + blank_eol(w).len()),
{
    reveal(lex_at);
    lemma_text_char(s, p, blank_eol(w), 0);
    if w is Crlf {
        lemma_text_char(s, p, blank_eol(w), 1);
    }
    assert(skip_trivia(s, p) == Trivia::Next(p));
}

/// A `key = value` line with its end written as `w` says.
pub open spec fn wline_text(e: (Seq<char>, ValueModel), w: Ending) -> Seq<char> {
    key_text(e.0) + seq![' ', '=', ' '] + inline_text(e.1) + eol(w)
}

proof fn lemma_rewritten_keyval(w: Ending, key: Seq<char>, v: ValueModel)
    requires
        readable(v),
    ensures
        rewritten(w, line_text((key, v))) == wline_text((key, v), w),
{
    let t = key_text(key) + seq![' ', '=', ' '] + inline_text(v);
    lemma_one_line_key(key);
    lemma_one_line_inline(v);
    lemma_one_line_add(key_text(key), seq![' ', '=', ' ']);
    lemma_one_line_add(key_text(key) + seq![' ', '=', ' '], inline_text(v));
    lemma_rewritten_line(w, t);
}

/// A `key = value` line at `pos`, ended as `w` says, read from the start of
/// the line: the states the reader goes through.
#[verifier::rlimit(40)]
proof fn lemma_keyval_line_w(s: Seq<char>, pos: int, key: Seq<char>, v: ValueModel, w: Ending)
    requires
        readable_key(key),
        readable(v),
        ending_ok(w),
        text_at(s, pos, wline_text((key, v), w)),
    ensures
        ({
            let c = pos + key_text(key).len();
            let f = c + 3 + inline_text(v).len();
            let st1 = LexState { pos: c, peeked: Some(key_token(key)), key_mode: true };
            let st2 = LexState { pos: c + 2, peeked: Some(TokenModel::Equals), key_mode: false };
            &&& f + eol(w).len() == pos + wline_text((key, v), w).len()
            &&& skip_newlines(s, with_key_mode(at(pos), true)) == Ok::<LexState, (Option<int>, Seq<char>)>(st1)
            &&& peek_tok(s, st1) == Ok::<(TokenModel, LexState), (Option<int>, Seq<char>)>((key_token(key), st1))
            &&& key_spec(s, st1) == Ok::<(Seq<Seq<char>>, LexState), (Option<int>, Seq<char>)>((seq![key], st2))
            &&& expect_tok(s, st2, TokenModel::Equals) == Ok::<LexState, (Option<int>, Seq<char>)>(at(c + 2))
            &&& value_spec(s, at(c + 2)) == Ok::<(ValueModel, LexState), (Option<int>, Seq<char>)>((v, at(f)))
            &&& newline_or_eof(s, at(f)) == Ok::<LexState, (Option<int>, Seq<char>)>(at(f + eol(w).len()))
            &&& key_token(key) != TokenModel::Eof
            &&& key_token(key) != TokenModel::LBracket
            &&& key_token(key) != TokenModel::DoubleLBracket
        }),
{
    let line = wline_text((key, v), w);
    let kt = key_text(key);
    let c = pos + kt.len();
    let f = c + 3 + inline_text(v).len();
    assert(line =~= kt + seq![' ', '=', ' '] + inline_text(v) + eol(w));
    lemma_text_sub(s, pos, line, 0, kt.len() as int);
    assert(line.subrange(0, kt.len() as int) =~= kt);
    lemma_text_char(s, pos, line, kt.len() as int);
    lemma_text_char(s, pos, line, kt.len() as int + 1);
    lemma_text_char(s, pos, line, kt.len() as int + 2);
    lemma_text_sub(s, pos, line, kt.len() as int + 3, f - pos);
    assert(line.subrange(kt.len() as int + 3, f - pos) =~= inline_text(v));
    lemma_text_sub(s, pos, line, f - pos, line.len() as int);
    assert(line.subrange(f - pos, line.len() as int) =~= eol(w));
    lemma_eol(s, f, w, false);
    lemma_lex_key(s, pos, key, true);
    lemma_lex_space(s, c, true);
    lemma_lex_punct(s, c + 1, true);
    assert(ready(s, at(c + 2), c + 3));
    lemma_value_reads_back(s, c + 3, v, at(c + 2));
}

/// A `key = value` line at `p`, ended as `w` says, is read, and its entry
/// added to the current table.
proof fn lemma_doc_keyval_w(s: Seq<char>, p: int, key: Seq<char>, v: ValueModel, w: Ending, n: Seq<NodeModel>, q: Seq<Seq<char>>)
    requires
        readable_key(key),
        readable(v),
        ending_ok(w),
        text_at(s, p, wline_text((key, v), w)),
    ensures
        document_spec(s, at(p), n, q) == match keyval_effect(n, q, seq![key], v) {
            Some(n2) => document_spec(s, at(p + wline_text((key, v), w).len()), n2, q),
            None => Err((None, keyval_msg(n, q, seq![key]))),
        },
{
    lemma_keyval_line_w(s, p, key, v, w);
}

/// `a` and `b` are the same value but for the order of the entries of
/// their tables: equal scalars, arrays of the same length whose elements
/// are so, and tables of the same size in which each entry of `a` has one
/// under the same key in `b` that is so.
pub open spec fn same_up_to_order(a: ValueModel, b: ValueModel) -> bool
    decreases a, 0nat,
{
    match a {
        ValueModel::Table(x) => match b {
            ValueModel::Table(y) => x.len() == y.len() && forall|i: int|
                0 <= i < x.len() ==> has_entry_like(y, #[trigger] x[i].0, x[i].1),
            _ => false,
        },
        ValueModel::Array(x) => match b {
            ValueModel::Array(y) => x.len() == y.len() && forall|i: int| 0 <= i < x.len() ==> same_up_to_order(#[trigger] x[i], y[i]),
            _ => false,
        },
        _ => a == b,
    }
}

/// `y` has an entry under `k` whose value is `v` but for order.
pub open spec fn has_entry_like(y: Seq<(Seq<char>, ValueModel)>, k: Seq<char>, v: ValueModel) -> bool
    decreases v, 1nat,
{
    exists|j: int| 0 <= j < y.len() && #[trigger] y[j].0 == k && same_up_to_order(v, y[j].1)
}

proof fn lemma_same_refl(v: ValueModel)
    ensures
        same_up_to_order(v, v),
    decreases v,
{
    match v {
        ValueModel::Table(x) => {
            assert forall|i: int| 0 <= i < x.len() implies has_entry_like(x, #[trigger] x[i].0, x[i].1) by {
                assert(decreases_to!(v => x[i].1));
                lemma_same_refl(x[i].1);
                assert(x[i].0 == x[i].0 && same_up_to_order(x[i].1, x[i].1));
            }
        },
        ValueModel::Array(x) => {
            assert forall|i: int| 0 <= i < x.len() implies same_up_to_order(#[trigger] x[i], x[i]) by {
                lemma_same_refl(x[i]);
            }
        },
        _ => {},
    }
}

/// Each entry of a table is of one kind: written inline, a sub-table, or
/// an array of tables; the three parts together are as long as the table.
proof fn lemma_parts_len(es: Seq<(Seq<char>, ValueModel)>, k: nat)
    requires
        k <= es.len(),
    ensures
        inline_part(es, k).len() + table_part(es, k).len() + aot_part(es, k).len() == k,
    decreases k,
{
    if k > 0 {
        lemma_parts_len(es, (k - 1) as nat);
    }
}

/// An entry written inline is in the inline part.
proof fn lemma_in_inline(es: Seq<(Seq<char>, ValueModel)>, k: nat, i: int)
    requires
        0 <= i < k <= es.len(),
        is_inline(es[i].1),
    ensures
        exists|x: int| 0 <= x < inline_part(es, k).len() && #[trigger] inline_part(es, k)[x] == es[i],
    decreases k,
{
    if i < k - 1 {
        lemma_in_inline(es, (k - 1) as nat, i);
        let x = choose|x: int| 0 <= x < inline_part(es, (k - 1) as nat).len() && #[trigger] inline_part(es, (k - 1) as nat)[x] == es[i];
        assert(inline_part(es, k)[x] == es[i]);
    } else {
        let x = inline_part(es, (k - 1) as nat).len() as int;
        assert(inline_part(es, k)[x] == es[i]);
    }
}

/// A sub-table is in the part of sub-tables, reordered.
proof fn lemma_in_tables(es: Seq<(Seq<char>, ValueModel)>, k: nat, i: int)
    requires
        0 <= i < k <= es.len(),
        es[i].1 is Table,
    ensures
        exists|x: int| 0 <= x < table_part(es, k).len() && #[trigger] table_part(es, k)[x]
            == (es[i].0, ValueModel::Table(reordered(es[i].1->Table_0))),
    decreases k,
{
    if i < k - 1 {
        lemma_in_tables(es, (k - 1) as nat, i);
        let x = choose|x: int| 0 <= x < table_part(es, (k - 1) as nat).len() && #[trigger] table_part(es, (k - 1) as nat)[x]
            == (es[i].0, ValueModel::Table(reordered(es[i].1->Table_0)));
        assert(table_part(es, k)[x] == table_part(es, (k - 1) as nat)[x]);
    } else {
        let x = table_part(es, (k - 1) as nat).len() as int;
        assert(table_part(es, k)[x] == (es[i].0, ValueModel::Table(reordered(es[i].1->Table_0))));
    }
}

/// An array of tables is in the part of arrays of tables, its tables
/// reordered.
proof fn lemma_in_aots(es: Seq<(Seq<char>, ValueModel)>, k: nat, i: int)
    requires
        0 <= i < k <= es.len(),
        es[i].1 is Array,
        is_aot(es[i].1->Array_0),
    ensures
        exists|x: int| 0 <= x < aot_part(es, k).len() && #[trigger] aot_part(es, k)[x]
            == (es[i].0, ValueModel::Array(reordered_tables(es[i].1->Array_0, es[i].1->Array_0.len()))),
    decreases k,
{
    if i < k - 1 {
        lemma_in_aots(es, (k - 1) as nat, i);
        let x = choose|x: int| 0 <= x < aot_part(es, (k - 1) as nat).len() && #[trigger] aot_part(es, (k - 1) as nat)[x]
            == (es[i].0, ValueModel::Array(reordered_tables(es[i].1->Array_0, es[i].1->Array_0.len())));
        assert(aot_part(es, k)[x] == aot_part(es, (k - 1) as nat)[x]);
    } else {
        let x = aot_part(es, (k - 1) as nat).len() as int;
        assert(aot_part(es, k)[x] == (es[i].0, ValueModel::Array(reordered_tables(es[i].1->Array_0, es[i].1->Array_0.len()))));
    }
}

/// The tables of an array of tables, reordered, are the same tables but
/// for order.
proof fn lemma_reordered_tables_same(arr: Seq<ValueModel>, j: nat)
    requires
        j <= arr.len(),
        forall|t: int| 0 <= t < arr.len() ==> #[trigger] arr[t] is Table,
    ensures
        reordered_tables(arr, j).len() == j,
        forall|t: int| 0 <= t < j ==> same_up_to_order(#[trigger] arr[t], reordered_tables(arr, j)[t]),
    decreases arr, 0nat, j,
{
    if j > 0 {
        lemma_reordered_tables_same(arr, (j - 1) as nat);
        assert(decreases_to!(arr => arr[j - 1]));
        assert(arr[j - 1] is Table);
        let t0 = arr[j - 1]->Table_0;
        lemma_reordered_same(t0);
        assert forall|t: int| 0 <= t < j implies same_up_to_order(#[trigger] arr[t], reordered_tables(arr, j)[t]) by {
            if t < j - 1 {
                assert(reordered_tables(arr, j)[t] == reordered_tables(arr, (j - 1) as nat)[t]);
            } else {
                assert(reordered_tables(arr, j)[t] == ValueModel::Table(reordered(t0)));
                assert(arr[t] == ValueModel::Table(t0));
            }
        }
    }
}

/// A table and its entries reordered are the same but for order.
proof fn lemma_reordered_same(es: Seq<(Seq<char>, ValueModel)>)
    ensures
        same_up_to_order(ValueModel::Table(es), ValueModel::Table(reordered(es))),
    decreases es, 2nat, 0nat,
{
    let r = reordered(es);
    let a = inline_part(es, es.len());
    let b = table_part(es, es.len());
    let c = aot_part(es, es.len());
    lemma_parts_len(es, es.len());
    assert forall|i: int| 0 <= i < es.len() implies has_entry_like(r, #[trigger] es[i].0, es[i].1) by {
        assert(decreases_to!(es => es[i]));
        let v = es[i].1;
        if is_inline(v) {
            lemma_in_inline(es, es.len(), i);
            let x = choose|x: int| 0 <= x < a.len() && #[trigger] a[x] == es[i];
            assert(r[x] == a[x]);
            lemma_same_refl(v);
            assert(r[x].0 == es[i].0 && same_up_to_order(es[i].1, r[x].1));
        } else if v is Table {
            lemma_in_tables(es, es.len(), i);
            let x = choose|x: int| 0 <= x < b.len() && #[trigger] b[x] == (es[i].0, ValueModel::Table(reordered(v->Table_0)));
            assert(r[a.len() + x] == b[x]);
            lemma_reordered_same(v->Table_0);
            assert(r[a.len() + x].0 == es[i].0 && same_up_to_order(es[i].1, r[a.len() + x].1));
        } else {
            assert(v is Array && is_aot(v->Array_0));
            let arr = v->Array_0;
            lemma_in_aots(es, es.len(), i);
            let x = choose|x: int| 0 <= x < c.len() && #[trigger] c[x] == (es[i].0, ValueModel::Array(reordered_tables(arr, arr.len())));
            assert(r[a.len() + b.len() + x] == c[x]);
            assert forall|t: int| 0 <= t < arr.len() implies #[trigger] arr[t] is Table by {
            }
            lemma_reordered_tables_same(arr, arr.len());
            assert(r[a.len() + b.len() + x].0 == es[i].0 && same_up_to_order(es[i].1, r[a.len() + b.len() + x].1));
        }
    }
}

/// What a printed document reads back is the table it was printed from,
/// but for the order of the entries of its tables.
pub proof fn law_document_reads_back_up_to_order(es: Seq<(Seq<char>, ValueModel)>)
    requires
        printable(ValueModel::Table(es)),
        document_text(ValueModel::Table(es)).len() < u32::MAX,
    ensures
        parse_spec(document_text(ValueModel::Table(es))) matches Ok(v) && same_up_to_order(ValueModel::Table(es), v),
{
    law_document_reads_back(es);
    lemma_reordered_same(es);
}

} // verus!
