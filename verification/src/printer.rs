//! Writes a value as a TOML document, held to the layout in `layout`.

use vstd::prelude::*;
use crate::layout::{
    aot_tables_text, aots_text, before_header, date_text, document_text, ends_blank, escape_char, escaped,
    inline_text, is_aot, is_bare, is_inline, items_text, key_text, offset_datetime_text, offset_size, offset_text,
    pairs_text, path_text, quoted_text, scalars_text, subtables_text, table_text, time_text, trim_zeros,
};
use crate::grammar::bare_key_char;
use crate::lexer::{chars_of, is_bare_key_char};
use crate::table::{Table, entries_of, lemma_table_model, lemma_values_model, table_model, value_model, values_model};
use crate::text::{push_char, push_decimal, push_hex, push_padded};
use crate::tracker::strs;
use crate::value::{LocalDate, LocalTime, OffsetDateTime, UtcOffset, Value, ValueModel};

verus! {

/// `str::ends_with`: whether `suffix` is a suffix of `s`.
#[verifier::external_body]
fn str_ends_with(s: &str, suffix: &str) -> (b: bool)
    ensures
        b == (suffix@.len() <= s@.len() && s@.subrange(s@.len() - suffix@.len(), s@.len() as int) == suffix@),
{
    s.ends_with(suffix)
}

/// Appends how `c` is written inside a basic string.
fn push_escaped_char(out: &mut String, c: char)
    ensures
        final(out)@ == old(out)@ + escape_char(c),
{
    let ghost o = out@;
    let u = c as u32;
    if c == '\x08' {
        push_char(out, '\\');
        push_char(out, 'b');
    } else if c == '\t' {
        push_char(out, '\\');
        push_char(out, 't');
    } else if c == '\n' {
        push_char(out, '\\');
        push_char(out, 'n');
    } else if c == '\x0C' {
        push_char(out, '\\');
        push_char(out, 'f');
    } else if c == '\r' {
        push_char(out, '\\');
        push_char(out, 'r');
    } else if c == '"' {
        push_char(out, '\\');
        push_char(out, '"');
    } else if c == '\\' {
        push_char(out, '\\');
        push_char(out, '\\');
    } else if u < 0x20 || u == 0x7F {
        push_char(out, '\\');
        push_char(out, 'u');
        push_hex(out, u, 4);
    } else {
        push_char(out, c);
    }
    assert(out@ =~= o + escape_char(c));
}

/// `s` escaped for use inside a double-quoted basic string.
pub fn escape_string(s: &str) -> (r: String)
    ensures
        r@ == escaped(s@),
{
    let v = chars_of(s);
    let mut out = String::new();
    let mut i: usize = 0;
    assert(v@.subrange(0, 0) =~= Seq::<char>::empty());
    while i < v.len()
        invariant
            v@ == s@,
            i <= v.len(),
            out@ == escaped(v@.subrange(0, i as int)),
        decreases v.len() - i,
    {
        push_escaped_char(&mut out, v[i]);
        assert(v@.subrange(0, i + 1).drop_last() =~= v@.subrange(0, i as int));
        i = i + 1;
    }
    assert(v@.subrange(0, v.len() as int) =~= v@);
    out
}

/// Appends `YYYY-MM-DD`.
fn push_date(out: &mut String, d: &LocalDate)
    ensures
        final(out)@ == old(out)@ + date_text(*d),
{
    let ghost o = out@;
    push_padded(out, d.year as u64, 4);
    push_char(out, '-');
    push_padded(out, d.month as u64, 2);
    push_char(out, '-');
    push_padded(out, d.day as u64, 2);
    assert(out@ =~= o + date_text(*d));
}

/// `s` without its trailing `0`s, as a sub-sequence of `s` from its start.
proof fn lemma_trim_zeros(s: Seq<char>, e: int)
    requires
        0 <= e <= s.len(),
        forall|i: int| e <= i < s.len() ==> s[i] == '0',
        e == 0 || s[e - 1] != '0',
    ensures
        trim_zeros(s) == s.subrange(0, e),
    decreases s.len(),
{
    if s.len() > e {
        assert(s.drop_last().subrange(0, e) =~= s.subrange(0, e));
        lemma_trim_zeros(s.drop_last(), e);
    } else {
        assert(s.subrange(0, e) =~= s);
    }
}

/// A time of day as `HH:MM:SS`, with the nanoseconds after a `.` when there
/// are any, without trailing zeros.
pub fn format_time(t: &LocalTime) -> (r: String)
    ensures
        r@ == time_text(*t),
{
    let mut out = String::new();
    push_padded(&mut out, t.hour as u64, 2);
    push_char(&mut out, ':');
    push_padded(&mut out, t.minute as u64, 2);
    push_char(&mut out, ':');
    push_padded(&mut out, t.second as u64, 2);
    let ghost hms = out@;
    if t.nanosecond == 0 {
        assert(out@ =~= time_text(*t));
        return out;
    }
    let mut ns = String::new();
    push_padded(&mut ns, t.nanosecond as u64, 9);
    let d = chars_of(ns.as_str());
    let mut e: usize = d.len();
    while e > 0 && d[e - 1] == '0'
        invariant
            e <= d.len(),
            forall|i: int| e <= i < d.len() ==> d@[i] == '0',
        decreases e,
    {
        e = e - 1;
    }
    proof {
        lemma_trim_zeros(d@, e as int);
    }
    push_char(&mut out, '.');
    let ghost o = out@;
    let mut i: usize = 0;
    while i < e
        invariant
            i <= e <= d.len(),
            out@ == o + d@.subrange(0, i as int),
        decreases e - i,
    {
        push_char(&mut out, d[i]);
        assert(out@ =~= o + d@.subrange(0, i + 1));
        i = i + 1;
    }
    assert(out@ =~= time_text(*t));
    out
}

/// Appends the offset: `Z`, or a sign and `HH:MM`.
fn push_offset(out: &mut String, o: &UtcOffset)
    ensures
        final(out)@ == old(out)@ + offset_text(*o),
{
    let ghost start = out@;
    match o {
        UtcOffset::Z => {
            push_char(out, 'Z');
        },
        UtcOffset::Minutes(m) => {
            let size: u64 = if *m >= 0 {
                *m as u64
            } else {
                (-(*m as i32)) as u64
            };
            assert(size == offset_size(*m));
            push_char(out, if *m >= 0 { '+' } else { '-' });
            push_padded(out, size / 60, 2);
            push_char(out, ':');
            push_padded(out, size % 60, 2);
        },
    }
    assert(out@ =~= start + offset_text(*o));
}

/// A date and time with an offset, as `YYYY-MM-DDTHH:MM:SS` and the offset.
pub fn format_offset_datetime(dt: &OffsetDateTime) -> (r: String)
    ensures
        r@ == offset_datetime_text(*dt),
{
    let mut out = String::new();
    push_date(&mut out, &dt.date);
    push_char(&mut out, 'T');
    let t = format_time(&dt.time);
    out.append(t.as_str());
    push_offset(&mut out, &dt.offset);
    assert(out@ =~= offset_datetime_text(*dt));
    out
}

/// Whether the array is not empty and holds only tables.
pub fn is_array_of_tables(arr: &[Value]) -> (b: bool)
    ensures
        b == is_aot(values_model(arr@)),
{
    proof {
        lemma_values_model(arr@);
    }
    if arr.len() == 0 {
        return false;
    }
    let mut i: usize = 0;
    while i < arr.len()
        invariant
            i <= arr.len(),
            values_model(arr@) =~= Seq::new(arr@.len(), |k: int| value_model(arr@[k])),
            forall|k: int| 0 <= k < i ==> #[trigger] values_model(arr@)[k] is Table,
        decreases arr.len() - i,
    {
        match &arr[i] {
            Value::Table(_) => {},
            _ => {
                assert(!(values_model(arr@)[i as int] is Table));
                return false;
            },
        }
        i = i + 1;
    }
    true
}

/// Whether the value is written on a `key = value` line: anything but a
/// table or an array of tables.
pub fn is_inline_value(value: &Value) -> (b: bool)
    ensures
        b == is_inline(value_model(*value)),
{
    match value {
        Value::Table(_) => false,
        Value::Array(arr) => !is_array_of_tables(arr.as_slice()),
        _ => true,
    }
}

/// `path` with `key` added at the end.
fn extend_path(path: &Vec<String>, key: &String) -> (p: Vec<String>)
    ensures
        strs(p@) == strs(path@).push(key@),
{
    let mut p: Vec<String> = Vec::new();
    let mut i: usize = 0;
    while i < path.len()
        invariant
            i <= path.len(),
            p.len() == i,
            forall|k: int| 0 <= k < i ==> (#[trigger] p@[k])@ == path@[k]@,
        decreases path.len() - i,
    {
        p.push(path[i].clone());
        i = i + 1;
    }
    p.push(key.clone());
    assert(strs(p@) =~= strs(path@).push(key@));
    p
}

/// Writes a value as a TOML document.
pub struct PrettyPrinter {
    output: String,
}

impl PrettyPrinter {
    /// What has been written so far.
    pub closed spec fn text(&self) -> Seq<char> {
        self.output@
    }

    /// A printer that has written nothing.
    pub fn new() -> (p: PrettyPrinter)
        ensures
            p.text() == Seq::<char>::empty(),
    {
        PrettyPrinter { output: String::new() }
    }

    /// The document for `value`: its text when it is a table, else nothing.
    pub fn print(value: &Value) -> (s: String)
        ensures
            s@ == document_text(value_model(*value)),
    {
        let mut printer = PrettyPrinter::new();
        if let Value::Table(table) = value {
            let root: Vec<String> = Vec::new();
            assert(strs(root@) =~= Seq::<Seq<char>>::empty());
            printer.print_table(table, &root);
        }
        printer.output
    }

    /// A key: bare when it is not empty and holds only ASCII letters,
    /// digits, `_` and `-`; else quoted and escaped.
    pub fn format_key(key: &str) -> (s: String)
        ensures
            s@ == key_text(key@),
    {
        let v = chars_of(key);
        let mut bare = v.len() > 0;
        let mut i: usize = 0;
        while i < v.len()
            invariant
                v@ == key@,
                i <= v.len(),
                bare == (v.len() > 0 && forall|j: int| 0 <= j < i ==> bare_key_char(#[trigger] v@[j])),
            decreases v.len() - i,
        {
            if !is_bare_key_char(v[i]) {
                bare = false;
            }
            i = i + 1;
        }
        assert(bare == is_bare(key@));
        if bare {
            String::from_str(key)
        } else {
            let mut s = String::new();
            push_char(&mut s, '"');
            let e = escape_string(key);
            s.append(e.as_str());
            push_char(&mut s, '"');
            assert(s@ =~= quoted_text(key@));
            s
        }
    }

    /// A path of keys, joined by `.`.
    pub fn format_path(path: &[String]) -> (s: String)
        ensures
            s@ == path_text(strs(path@)),
    {
        let mut s = String::new();
        let mut i: usize = 0;
        assert(strs(path@).take(0) =~= Seq::<Seq<char>>::empty());
        while i < path.len()
            invariant
                i <= path.len(),
                s@ == path_text(strs(path@).take(i as int)),
            decreases path.len() - i,
        {
            if i > 0 {
                push_char(&mut s, '.');
            }
            let k = Self::format_key(path[i].as_str());
            s.append(k.as_str());
            proof {
                let p = strs(path@).take(i + 1);
                assert(p.drop_last() =~= strs(path@).take(i as int));
                assert(p.last() == path@[i as int]@);
                if i == 0 {
                    assert(s@ =~= path_text(p));
                } else {
                    assert(s@ =~= path_text(p));
                }
            }
            i = i + 1;
        }
        assert(strs(path@).take(path.len() as int) =~= strs(path@));
        s
    }

    /// Writes a value inline.
    fn print_value_inline(&mut self, value: &Value)
        ensures
            final(self).text() == old(self).text() + inline_text(value_model(*value)),
        decreases value_model(*value),
    {
        let ghost o = self.output@;
        let ghost vm = value_model(*value);
        match value {
            Value::String(s) => {
                push_char(&mut self.output, '"');
                let e = escape_string(s.as_str());
                self.output.append(e.as_str());
                push_char(&mut self.output, '"');
            },
            Value::Integer(n) => {
                push_decimal(&mut self.output, *n);
            },
            Value::Float(t) => {
                self.output.append(t.as_str());
            },
            Value::Boolean(b) => {
                if *b {
                    push_char(&mut self.output, 't');
                    push_char(&mut self.output, 'r');
                    push_char(&mut self.output, 'u');
                    push_char(&mut self.output, 'e');
                } else {
                    push_char(&mut self.output, 'f');
                    push_char(&mut self.output, 'a');
                    push_char(&mut self.output, 'l');
                    push_char(&mut self.output, 's');
                    push_char(&mut self.output, 'e');
                }
            },
            Value::OffsetDateTime(dt) => {
                let t = format_offset_datetime(dt);
                self.output.append(t.as_str());
            },
            Value::LocalDateTime(dt) => {
                push_date(&mut self.output, &dt.date);
                push_char(&mut self.output, 'T');
                let t = format_time(&dt.time);
                self.output.append(t.as_str());
            },
            Value::LocalDate(d) => {
                push_date(&mut self.output, d);
            },
            Value::LocalTime(t) => {
                let t = format_time(t);
                self.output.append(t.as_str());
            },
            Value::Array(arr) => {
                let ghost vs = values_model(arr@);
                proof {
                    lemma_values_model(arr@);
                }
                push_char(&mut self.output, '[');
                push_char(&mut self.output, ' ');
                let ghost o1 = self.output@;
                let mut i: usize = 0;
                while i < arr.len()
                    invariant
                        vm == value_model(*value),
                        vm == ValueModel::Array(vs),
                        vs == values_model(arr@),
                        vs.len() == arr.len(),
                        forall|k: int| 0 <= k < arr.len() ==> #[trigger] vs[k] == value_model(arr@[k]),
                        i <= arr.len(),
                        self.output@ == o1 + items_text(vs, i as nat),
                    decreases arr.len() - i,
                {
                    if i > 0 {
                        push_char(&mut self.output, ',');
                        push_char(&mut self.output, ' ');
                    }
                    proof {
                        assert(decreases_to!(vm => vm->Array_0));
                        assert(decreases_to!(vs => vs[i as int]));
                    }
                    self.print_value_inline(&arr[i]);
                    assert(self.output@ =~= o1 + items_text(vs, (i + 1) as nat));
                    i = i + 1;
                }
                push_char(&mut self.output, ' ');
                push_char(&mut self.output, ']');
            },
            Value::Table(t) => {
                let ghost es = table_model(*t);
                proof {
                    lemma_table_model(*t);
                }
                push_char(&mut self.output, '{');
                push_char(&mut self.output, ' ');
                let ghost o1 = self.output@;
                let n = t.len();
                let mut i: usize = 0;
                while i < n
                    invariant
                        vm == value_model(*value),
                        vm == ValueModel::Table(es),
                        es == entries_of(t@),
                        n == t@.len(),
                        i <= n,
                        self.output@ == o1 + pairs_text(es, i as nat),
                    decreases n - i,
                {
                    if i > 0 {
                        push_char(&mut self.output, ',');
                        push_char(&mut self.output, ' ');
                    }
                    let k = Self::format_key(t.key_at(i).as_str());
                    self.output.append(k.as_str());
                    push_char(&mut self.output, ' ');
                    push_char(&mut self.output, '=');
                    push_char(&mut self.output, ' ');
                    proof {
                        assert(decreases_to!(vm => vm->Table_0));
                        assert(decreases_to!(es => es[i as int]));
                        assert(decreases_to!(es[i as int] => es[i as int].1));
                    }
                    self.print_value_inline(t.value_at(i));
                    assert(self.output@ =~= o1 + pairs_text(es, (i + 1) as nat));
                    i = i + 1;
                }
                push_char(&mut self.output, ' ');
                push_char(&mut self.output, '}');
            },
        }
        assert(self.output@ =~= o + inline_text(vm));
    }

    /// Adds a newline unless nothing has been written or what has been
    /// written ends with a blank line.
    fn separate(&mut self)
        ensures
            final(self).text() == before_header(old(self).text()),
    {
        let ghost o = self.output@;
        let empty = self.output.as_str().is_empty();
        let blank = str_ends_with(self.output.as_str(), "\n\n");
        proof {
            reveal_strlit("\n\n");
            assert("\n\n"@ =~= seq!['\n', '\n']);
            if o.len() >= 2 {
                assert(o.subrange(o.len() - 2, o.len() as int) =~= seq![o[o.len() - 2], o[o.len() - 1]]);
            }
            assert(blank == ends_blank(o));
        }
        if !empty && !blank {
            push_char(&mut self.output, '\n');
        }
    }

    /// Writes the table at `path`: its inline values, then its sub-tables,
    /// then its arrays of tables.
    fn print_table(&mut self, table: &Table, path: &Vec<String>)
        ensures
            final(self).text() == table_text(old(self).text(), table_model(*table), strs(path@)),
        decreases table_model(*table),
    {
        let ghost es = table_model(*table);
        let ghost pm = strs(path@);
        proof {
            lemma_table_model(*table);
        }
        let n = table.len();
        let ghost o0 = self.output@;
        let mut i: usize = 0;
        while i < n
            invariant
                es == table_model(*table),
                es == entries_of(table@),
                n == table@.len(),
                i <= n,
                self.output@ == scalars_text(o0, es, i as nat),
            decreases n - i,
        {
            let v = table.value_at(i);
            if is_inline_value(v) {
                let k = Self::format_key(table.key_at(i).as_str());
                self.output.append(k.as_str());
                push_char(&mut self.output, ' ');
                push_char(&mut self.output, '=');
                push_char(&mut self.output, ' ');
                self.print_value_inline(v);
                push_char(&mut self.output, '\n');
            }
            assert(self.output@ =~= scalars_text(o0, es, (i + 1) as nat));
            i = i + 1;
        }
        let ghost o1 = self.output@;
        let mut i: usize = 0;
        while i < n
            invariant
                es == table_model(*table),
                es == entries_of(table@),
                pm == strs(path@),
                n == table@.len(),
                i <= n,
                self.output@ == subtables_text(o1, es, pm, i as nat),
            decreases n - i,
        {
            let ghost o = self.output@;
            match table.value_at(i) {
                Value::Table(sub) => {
                    let new_path = extend_path(path, table.key_at(i));
                    self.separate();
                    push_char(&mut self.output, '[');
                    let p = Self::format_path(new_path.as_slice());
                    self.output.append(p.as_str());
                    push_char(&mut self.output, ']');
                    push_char(&mut self.output, '\n');
                    proof {
                        assert(es[i as int].1 == ValueModel::Table(table_model(*sub)));
                        assert(decreases_to!(es => es[i as int]));
                        assert(decreases_to!(es[i as int] => es[i as int].1));
                        assert(decreases_to!(es[i as int].1 => es[i as int].1->Table_0));
                        assert(self.output@ =~= before_header(o) + seq!['['] + path_text(pm.push(es[i as int].0)) + seq![']', '\n']);
                    }
                    self.print_table(sub, &new_path);
                },
                _ => {},
            }
            assert(self.output@ =~= subtables_text(o1, es, pm, (i + 1) as nat));
            i = i + 1;
        }
        let ghost o2 = self.output@;
        let mut i: usize = 0;
        while i < n
            invariant
                es == table_model(*table),
                es == entries_of(table@),
                pm == strs(path@),
                n == table@.len(),
                i <= n,
                self.output@ == aots_text(o2, es, pm, i as nat),
            decreases n - i,
        {
            let ghost o = self.output@;
            match table.value_at(i) {
                Value::Array(arr) => {
                    if is_array_of_tables(arr.as_slice()) {
                        let new_path = extend_path(path, table.key_at(i));
                        let ghost am = values_model(arr@);
                        let ghost np = pm.push(es[i as int].0);
                        proof {
                            lemma_values_model(arr@);
                            assert(es[i as int].1 == ValueModel::Array(am));
                        }
                        let mut j: usize = 0;
                        while j < arr.len()
                            invariant
                                es == table_model(*table),
                                i < es.len(),
                                es[i as int].1 == ValueModel::Array(am),
                                am == values_model(arr@),
                                am.len() == arr.len(),
                                forall|k: int| 0 <= k < arr.len() ==> #[trigger] am[k] == value_model(arr@[k]),
                                strs(new_path@) == np,
                                j <= arr.len(),
                                self.output@ == aot_tables_text(o, am, np, j as nat),
                            decreases arr.len() - j,
                        {
                            let ghost oj = self.output@;
                            match &arr[j] {
                                Value::Table(t) => {
                                    self.separate();
                                    push_char(&mut self.output, '[');
                                    push_char(&mut self.output, '[');
                                    let p = Self::format_path(new_path.as_slice());
                                    self.output.append(p.as_str());
                                    push_char(&mut self.output, ']');
                                    push_char(&mut self.output, ']');
                                    push_char(&mut self.output, '\n');
                                    proof {
                                        assert(am[j as int] == ValueModel::Table(table_model(*t)));
                                        assert(decreases_to!(es => es[i as int]));
                                        assert(decreases_to!(es[i as int] => es[i as int].1));
                                        assert(decreases_to!(es[i as int].1 => es[i as int].1->Array_0));
                                        assert(decreases_to!(am => am[j as int]));
                                        assert(decreases_to!(am[j as int] => am[j as int]->Table_0));
                                        assert(self.output@ =~= before_header(oj) + seq!['[', '['] + path_text(np) + seq![']', ']', '\n']);
                                    }
                                    self.print_table(t, &new_path);
                                },
                                _ => {},
                            }
                            assert(self.output@ =~= aot_tables_text(o, am, np, (j + 1) as nat));
                            j = j + 1;
                        }
                    }
                },
                _ => {},
            }
            assert(self.output@ =~= aots_text(o2, es, pm, (i + 1) as nat));
            i = i + 1;
        }
    }
}

} // verus!
