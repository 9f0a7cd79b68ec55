//! The text the printer writes for a value: keys, dates and times, inline
//! values, and tables laid out in three passes (values written inline, then
//! sub-tables under `[path]` headers, then arrays of tables under
//! `[[path]]` headers).

use vstd::prelude::*;
use crate::grammar::bare_key_char;
use crate::text::{decimal_digits, hex_digits, padded_digits};
use crate::value::{LocalDate, LocalDateTime, LocalTime, OffsetDateTime, UtcOffset, ValueModel};

verus! {

/// How `c` is written inside a basic string: `\b \t \n \f \r \" \\`,
/// `\uXXXX` for the other control characters and DEL, else `c` itself.
pub open spec fn escape_char(c: char) -> Seq<char> {
    if c == '\x08' {
        seq!['\\', 'b']
    } else if c == '\t' {
        seq!['\\', 't']
    } else if c == '\n' {
        seq!['\\', 'n']
    } else if c == '\x0C' {
        seq!['\\', 'f']
    } else if c == '\r' {
        seq!['\\', 'r']
    } else if c == '"' {
        seq!['\\', '"']
    } else if c == '\\' {
        seq!['\\', '\\']
    } else if (c as u32) < 0x20 || (c as u32) == 0x7F {
        seq!['\\', 'u'] + hex_digits(c as u32 as nat, 4)
    } else {
        seq![c]
    }
}

/// `s` with each character written as `escape_char` says.
pub open spec fn escaped(s: Seq<char>) -> Seq<char>
    decreases s.len(),
{
    if s.len() == 0 {
        Seq::empty()
    } else {
        escaped(s.drop_last()) + escape_char(s.last())
    }
}

/// `s` in double quotes, escaped.
pub open spec fn quoted_text(s: Seq<char>) -> Seq<char> {
    seq!['"'] + escaped(s) + seq!['"']
}

/// A key that can be written bare: not empty, and only ASCII letters,
/// digits, `_` and `-`.
pub open spec fn is_bare(k: Seq<char>) -> bool {
    k.len() > 0 && forall|i: int| 0 <= i < k.len() ==> bare_key_char(#[trigger] k[i])
}

/// How a key is written: bare when it can be, else quoted.
pub open spec fn key_text(k: Seq<char>) -> Seq<char> {
    if is_bare(k) {
        k
    } else {
        quoted_text(k)
    }
}

/// How a path of keys is written: its keys joined by `.`.
pub open spec fn path_text(p: Seq<Seq<char>>) -> Seq<char>
    decreases p.len(),
{
    if p.len() == 0 {
        Seq::empty()
    } else if p.len() == 1 {
        key_text(p[0])
    } else {
        path_text(p.drop_last()) + seq!['.'] + key_text(p.last())
    }
}

/// `YYYY-MM-DD`, each part zero-padded.
pub open spec fn date_text(d: LocalDate) -> Seq<char> {
    padded_digits(d.year as nat, 4) + seq!['-'] + padded_digits(d.month as nat, 2) + seq!['-']
        + padded_digits(d.day as nat, 2)
}

/// `s` without its trailing `0`s.
pub open spec fn trim_zeros(s: Seq<char>) -> Seq<char>
    decreases s.len(),
{
    if s.len() > 0 && s.last() == '0' {
        trim_zeros(s.drop_last())
    } else {
        s
    }
}

/// `HH:MM:SS`, then, when there are nanoseconds, `.` and their nine
/// digits without trailing zeros.
pub open spec fn time_text(t: LocalTime) -> Seq<char> {
    let hms = padded_digits(t.hour as nat, 2) + seq![':'] + padded_digits(t.minute as nat, 2) + seq![':']
        + padded_digits(t.second as nat, 2);
    if t.nanosecond == 0 {
        hms
    } else {
        hms + seq!['.'] + trim_zeros(padded_digits(t.nanosecond as nat, 9))
    }
}

/// The size of an offset in minutes.
pub open spec fn offset_size(m: i16) -> nat {
    if m >= 0 {
        m as nat
    } else {
        (-(m as int)) as nat
    }
}

/// `Z`, or a sign and `HH:MM`.
pub open spec fn offset_text(o: UtcOffset) -> Seq<char> {
    match o {
        UtcOffset::Z => seq!['Z'],
        UtcOffset::Minutes(m) => seq![if m >= 0 { '+' } else { '-' }] + padded_digits(offset_size(m) / 60, 2)
            + seq![':'] + padded_digits(offset_size(m) % 60, 2),
    }
}

/// A date and time with an offset, with `T` between date and time.
pub open spec fn offset_datetime_text(dt: OffsetDateTime) -> Seq<char> {
    date_text(dt.date) + seq!['T'] + time_text(dt.time) + offset_text(dt.offset)
}

/// A date and time, with `T` between them.
pub open spec fn local_datetime_text(dt: LocalDateTime) -> Seq<char> {
    date_text(dt.date) + seq!['T'] + time_text(dt.time)
}

/// How a value is written inline: arrays as `[ a, b ]`, tables as
/// `{ k = v, ... }`.
pub open spec fn inline_text(v: ValueModel) -> Seq<char>
    decreases v, 0nat,
{
    match v {
        ValueModel::String(s) => quoted_text(s),
        ValueModel::Integer(n) => decimal_digits(n as int),
        ValueModel::Float(t) => t,
        ValueModel::Boolean(b) => if b {
            seq!['t', 'r', 'u', 'e']
        } else {
            seq!['f', 'a', 'l', 's', 'e']
        },
        ValueModel::OffsetDateTime(d) => offset_datetime_text(d),
        ValueModel::LocalDateTime(d) => local_datetime_text(d),
        ValueModel::LocalDate(d) => date_text(d),
        ValueModel::LocalTime(t) => time_text(t),
        ValueModel::Array(vs) => seq!['[', ' '] + items_text(vs, vs.len()) + seq![' ', ']'],
        ValueModel::Table(es) => seq!['{', ' '] + pairs_text(es, es.len()) + seq![' ', '}'],
    }
}

/// The first `k` elements of `vs`, written inline and separated by `, `.
pub open spec fn items_text(vs: Seq<ValueModel>, k: nat) -> Seq<char>
    decreases vs, k,
{
    if k == 0 || k > vs.len() {
        Seq::empty()
    } else {
        let pre = items_text(vs, (k - 1) as nat);
        (if k > 1 {
            pre + seq![',', ' ']
        } else {
            pre
        }) + inline_text(vs[k - 1])
    }
}

/// The first `k` entries of `es`, written as `key = value` and separated by
/// `, `.
pub open spec fn pairs_text(es: Seq<(Seq<char>, ValueModel)>, k: nat) -> Seq<char>
    decreases es, k,
{
    if k == 0 || k > es.len() {
        Seq::empty()
    } else {
        let pre = pairs_text(es, (k - 1) as nat);
        proof {
            assert(decreases_to!(es => es[k - 1]));
        }
        (if k > 1 {
            pre + seq![',', ' ']
        } else {
            pre
        }) + key_text(es[k - 1].0) + seq![' ', '=', ' '] + inline_text(es[k - 1].1)
    }
}

/// A non-empty array whose elements are all tables.
pub open spec fn is_aot(vs: Seq<ValueModel>) -> bool {
    vs.len() > 0 && forall|i: int| 0 <= i < vs.len() ==> #[trigger] vs[i] is Table
}

/// A value written on a `key = value` line: anything but a table or an
/// array of tables.
pub open spec fn is_inline(v: ValueModel) -> bool {
    match v {
        ValueModel::Table(_) => false,
        ValueModel::Array(vs) => !is_aot(vs),
        _ => true,
    }
}

/// `out` ends with a blank line.
pub open spec fn ends_blank(out: Seq<char>) -> bool {
    out.len() >= 2 && out[out.len() - 2] == '\n' && out[out.len() - 1] == '\n'
}

/// `out` with a newline added when it is not empty and does not already end
/// with a blank line: what comes before a header.
pub open spec fn before_header(out: Seq<char>) -> Seq<char> {
    if out.len() > 0 && !ends_blank(out) {
        out.push('\n')
    } else {
        out
    }
}

/// `out` after the `key = value` lines of the first `k` entries of `es`
/// that are written inline.
pub open spec fn scalars_text(out: Seq<char>, es: Seq<(Seq<char>, ValueModel)>, k: nat) -> Seq<char>
    decreases k,
{
    if k == 0 || k > es.len() {
        out
    } else {
        let o = scalars_text(out, es, (k - 1) as nat);
        if is_inline(es[k - 1].1) {
            o + key_text(es[k - 1].0) + seq![' ', '=', ' '] + inline_text(es[k - 1].1) + seq!['\n']
        } else {
            o
        }
    }
}

/// `out` after the table `es` at `path`: its inline values, then its
/// sub-tables, then its arrays of tables.
pub open spec fn table_text(out: Seq<char>, es: Seq<(Seq<char>, ValueModel)>, path: Seq<Seq<char>>) -> Seq<char>
    decreases es, 3nat, 0nat,
{
    let o1 = scalars_text(out, es, es.len());
    let o2 = subtables_text(o1, es, path, es.len());
    aots_text(o2, es, path, es.len())
}

/// `out` after the sub-tables among the first `k` entries of `es`, each
/// under its `[path]` header.
pub open spec fn subtables_text(out: Seq<char>, es: Seq<(Seq<char>, ValueModel)>, path: Seq<Seq<char>>, k: nat) -> Seq<char>
    decreases es, 2nat, k,
{
    if k == 0 || k > es.len() {
        out
    } else {
        let o = subtables_text(out, es, path, (k - 1) as nat);
        proof {
            assert(decreases_to!(es => es[k - 1]));
        }
        match es[k - 1].1 {
            ValueModel::Table(sub) => {
                let p = path.push(es[k - 1].0);
                table_text(before_header(o) + seq!['['] + path_text(p) + seq![']', '\n'], sub, p)
            },
            _ => o,
        }
    }
}

/// `out` after the arrays of tables among the first `k` entries of `es`.
pub open spec fn aots_text(out: Seq<char>, es: Seq<(Seq<char>, ValueModel)>, path: Seq<Seq<char>>, k: nat) -> Seq<char>
    decreases es, 2nat, k,
{
    if k == 0 || k > es.len() {
        out
    } else {
        let o = aots_text(out, es, path, (k - 1) as nat);
        proof {
            assert(decreases_to!(es => es[k - 1]));
        }
        match es[k - 1].1 {
            ValueModel::Array(arr) => if is_aot(arr) {
                aot_tables_text(o, arr, path.push(es[k - 1].0), arr.len())
            } else {
                o
            },
            _ => o,
        }
    }
}

/// `out` after the first `j` tables of the array of tables `arr` at `p`,
/// each under a `[[p]]` header.
pub open spec fn aot_tables_text(out: Seq<char>, arr: Seq<ValueModel>, p: Seq<Seq<char>>, j: nat) -> Seq<char>
    decreases arr, 1nat, j,
{
    if j == 0 || j > arr.len() {
        out
    } else {
        let o = aot_tables_text(out, arr, p, (j - 1) as nat);
        match arr[j - 1] {
            ValueModel::Table(t) => table_text(before_header(o) + seq!['[', '['] + path_text(p) + seq![']', ']', '\n'], t, p),
            _ => o,
        }
    }
}

/// The document written for a value: a table's text, or nothing for any
/// other value.
pub open spec fn document_text(v: ValueModel) -> Seq<char> {
    match v {
        ValueModel::Table(es) => table_text(Seq::empty(), es, Seq::empty()),
        _ => Seq::empty(),
    }
}

} // verus!
