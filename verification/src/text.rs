use vstd::prelude::*;

verus! {

/// `s` with `c` appended, through `String::push`.
#[verifier::external_body]
pub fn push_char(s: &mut String, c: char)
    ensures
        final(s)@ == old(s)@.push(c),
{
    s.push(c);
}

/// The text that `format!("{:?}", c)` gives: the character as Rust source
/// writes a character literal.
pub uninterp spec fn char_debug(c: char) -> Seq<char>;

/// `<char as Debug>::fmt`, through `format!("{:?}", c)`: the quoted and
/// escaped form of `c`, named by `char_debug`.
#[verifier::external_body]
pub fn debug_char(c: char) -> (s: String)
    ensures
        s@ == char_debug(c),
{
    format!("{:?}", c)
}

/// The text that `format!("{:?}", s)` gives for a string whose characters
/// are `s`: the string quoted and escaped as Rust source writes it.
pub uninterp spec fn str_debug(s: Seq<char>) -> Seq<char>;

/// `<str as Debug>::fmt`, through `format!("{:?}", s)`: the quoted and
/// escaped form of `s`, named by `str_debug`.
#[verifier::external_body]
pub fn debug_str(s: &str) -> (r: String)
    ensures
        r@ == str_debug(s@),
{
    format!("{:?}", s)
}

/// The character of the decimal digit `d` (0 to 9).
pub open spec fn digit_char(d: int) -> char {
    (48 + d) as char
}

/// The character of the hexadecimal digit `d` (0 to 15), upper case.
pub open spec fn hex_char(d: int) -> char {
    if d < 10 {
        (48 + d) as char
    } else {
        (55 + d) as char
    }
}

/// The decimal digits of the natural number `n`, without leading zeros.
pub open spec fn nat_digits(n: nat) -> Seq<char>
    decreases n,
{
    if n < 10 {
        seq![digit_char(n as int)]
    } else {
        nat_digits(n / 10).push(digit_char((n % 10) as int))
    }
}

/// The decimal text of the integer `n`, with a leading `-` when it is negative.
pub open spec fn decimal_digits(n: int) -> Seq<char> {
    if n < 0 {
        seq!['-'] + nat_digits((-n) as nat)
    } else {
        nat_digits(n as nat)
    }
}

/// The decimal digits of `n`, padded on the left with zeros to at least `w`
/// characters (what `{:0w}` writes).
pub open spec fn padded_digits(n: nat, w: nat) -> Seq<char> {
    let d = nat_digits(n);
    if d.len() < w {
        Seq::new((w - d.len()) as nat, |i: int| '0') + d
    } else {
        d
    }
}

/// Exactly `w` upper-case hexadecimal digits of `n` (the lowest ones).
pub open spec fn hex_digits(n: nat, w: nat) -> Seq<char>
    decreases w,
{
    if w == 0 {
        Seq::empty()
    } else {
        hex_digits(n / 16, (w - 1) as nat).push(hex_char((n % 16) as int))
    }
}

/// The upper-case hexadecimal digits of `n` without leading zeros, padded
/// on the left with zeros to at least `w` characters (what `{:0w$X}` writes).
pub open spec fn hex_min(n: nat, w: nat) -> Seq<char>
    decreases n, w,
{
    if n < 16 && w <= 1 {
        seq![hex_char(n as int)]
    } else {
        hex_min(n / 16, if w > 0 { (w - 1) as nat } else { 0 }).push(hex_char((n % 16) as int))
    }
}

fn digit_of(d: u64) -> (c: char)
    requires
        d < 10,
    ensures
        c == digit_char(d as int),
{
    ((48u8 + d as u8) as char)
}

/// Appends the decimal digits of `n` to `s`.
pub fn push_nat(s: &mut String, n: u64)
    ensures
        final(s)@ == old(s)@ + nat_digits(n as nat),
    decreases n,
{
    if n >= 10 {
        push_nat(s, n / 10);
    }
    push_char(s, digit_of(n % 10));
    assert(final(s)@ =~= old(s)@ + nat_digits(n as nat));
}

/// Appends the decimal text of `n` (with `-` when negative) to `s`.
pub fn push_decimal(s: &mut String, n: i64)
    ensures
        final(s)@ == old(s)@ + decimal_digits(n as int),
{
    if n < 0 {
        push_char(s, '-');
        let m: i128 = -(n as i128);
        push_nat(s, m as u64);
        assert(final(s)@ =~= old(s)@ + decimal_digits(n as int));
    } else {
        push_nat(s, n as u64);
    }
}

/// Appends the decimal digits of `n`, zero-padded to at least `w` characters.
pub fn push_padded(s: &mut String, n: u64, w: usize)
    ensures
        final(s)@ == old(s)@ + padded_digits(n as nat, w as nat),
{
    let mut d = String::new();
    push_nat(&mut d, n);
    assert(d@ =~= nat_digits(n as nat));
    let len = d.unicode_len();
    if len < w {
        let mut k: usize = 0;
        let ghost start = s@;
        while k < w - len
            invariant
                k <= w - len,
                s@ == start + Seq::new(k as nat, |i: int| '0'),
            decreases w - len - k,
        {
            push_char(s, '0');
            k = k + 1;
            assert(s@ =~= start + Seq::new(k as nat, |i: int| '0'));
        }
        s.append(d.as_str());
        assert(s@ =~= start + padded_digits(n as nat, w as nat));
    } else {
        s.append(d.as_str());
    }
}

fn hex_of(d: u32) -> (c: char)
    requires
        d < 16,
    ensures
        c == hex_char(d as int),
{
    if d < 10 {
        ((48u8 + d as u8) as char)
    } else {
        ((55u8 + d as u8) as char)
    }
}

/// Appends exactly `w` upper-case hexadecimal digits of `n`.
pub fn push_hex(s: &mut String, n: u32, w: u32)
    ensures
        final(s)@ == old(s)@ + hex_digits(n as nat, w as nat),
    decreases w,
{
    if w > 0 {
        push_hex(s, n / 16, w - 1);
        push_char(s, hex_of(n % 16));
        assert(final(s)@ =~= old(s)@ + hex_digits(n as nat, w as nat));
    }
}

/// Appends the upper-case hexadecimal digits of `n`, zero-padded to at
/// least `w` characters.
pub fn push_hex_min(s: &mut String, n: u32, w: u32)
    ensures
        final(s)@ == old(s)@ + hex_min(n as nat, w as nat),
    decreases n, w,
{
    if n < 16 && w <= 1 {
        push_char(s, hex_of(n));
    } else {
        push_hex_min(s, n / 16, if w > 0 { w - 1 } else { 0 });
        push_char(s, hex_of(n % 16));
        assert(final(s)@ =~= old(s)@ + hex_min(n as nat, w as nat));
    }
}

} // verus!
