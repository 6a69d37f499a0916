//! Characters, strings and numerals.

use vstd::prelude::*;

verus! {

/// `String::push` appends one character and keeps what was there.
pub assume_specification[ std::string::String::push ](s: &mut std::string::String, c: char)
    ensures
        final(s)@ == old(s)@.push(c),
;

// ---------------------------------------------------------------------------
// Character classes
// ---------------------------------------------------------------------------

/// A line break character.
pub open spec fn is_break(c: char) -> bool {
    c == '\n' || c == '\r'
}

/// A space or a tab.
pub open spec fn is_blank(c: char) -> bool {
    c == ' ' || c == '\t'
}

/// One of the five characters that structure a flow collection.
pub open spec fn is_flow_indicator(c: char) -> bool {
    c == ',' || c == '[' || c == ']' || c == '{' || c == '}'
}

/// A decimal digit.
pub open spec fn is_digit(c: char) -> bool {
    '0' <= c <= '9'
}

/// The Unicode `White_Space` property.
pub open spec fn is_white_space(c: char) -> bool {
    ||| '\u{9}' <= c <= '\u{d}'
    ||| c == ' '
    ||| c == '\u{85}'
    ||| c == '\u{a0}'
    ||| c == '\u{1680}'
    ||| '\u{2000}' <= c <= '\u{200a}'
    ||| c == '\u{2028}'
    ||| c == '\u{2029}'
    ||| c == '\u{202f}'
    ||| c == '\u{205f}'
    ||| c == '\u{3000}'
}

pub fn break_char(c: char) -> (r: bool)
    ensures
        r == is_break(c),
{
    c == '\n' || c == '\r'
}

pub fn blank_char(c: char) -> (r: bool)
    ensures
        r == is_blank(c),
{
    c == ' ' || c == '\t'
}

pub fn flow_char(c: char) -> (r: bool)
    ensures
        r == is_flow_indicator(c),
{
    c == ',' || c == '[' || c == ']' || c == '{' || c == '}'
}

pub fn digit_char(c: char) -> (r: bool)
    ensures
        r == is_digit(c),
{
    '0' <= c && c <= '9'
}

pub fn white_space_char(c: char) -> (r: bool)
    ensures
        r == is_white_space(c),
{
    ('\u{9}' <= c && c <= '\u{d}') || c == ' ' || c == '\u{85}' || c == '\u{a0}' || c == '\u{1680}'
        || ('\u{2000}' <= c && c <= '\u{200a}') || c == '\u{2028}' || c == '\u{2029}' || c
        == '\u{202f}' || c == '\u{205f}' || c == '\u{3000}'
}

// ---------------------------------------------------------------------------
// Strings
// ---------------------------------------------------------------------------

/// The characters of a string.
pub fn chars_of(s: &str) -> (r: Vec<char>)
    ensures
        r@ == s@,
{
    let mut v: Vec<char> = Vec::new();
    for c in it: s.chars()
        invariant
            v@ == it.seq().take(it.index() as int),
            it.seq() == s@,
    {
        v.push(c);
    }
    v
}

/// The characters of `v` from `from` up to `to`, as a string.
pub fn string_between(v: &Vec<char>, from: usize, to: usize) -> (r: String)
    requires
        from <= to <= v@.len(),
    ensures
        r@ == v@.subrange(from as int, to as int),
{
    let mut s = String::new();
    let mut i: usize = from;
    while i < to
        invariant
            from <= i <= to <= v@.len(),
            s@ == v@.subrange(from as int, i as int),
        decreases to - i,
    {
        s.push(v[i]);
        i += 1;
    }
    s
}

/// `n` copies of `c`.
pub open spec fn repeated(c: char, n: nat) -> Seq<char> {
    Seq::new(n, |i: int| c)
}

/// Appends `n` copies of `c`.
pub fn push_repeated(s: &mut String, c: char, n: usize)
    ensures
        final(s)@ == old(s)@ + repeated(c, n as nat),
{
    let mut i: usize = 0;
    while i < n
        invariant
            i <= n,
            s@ == old(s)@ + repeated(c, i as nat),
        decreases n - i,
    {
        s.push(c);
        i += 1;
    }
}

/// `s` without the trailing characters that are blanks.
pub open spec fn trim_blanks(s: Seq<char>) -> Seq<char>
    decreases s.len(),
{
    if s.len() > 0 && is_blank(s.last()) {
        trim_blanks(s.drop_last())
    } else {
        s
    }
}

/// `s` without its trailing newlines.
pub open spec fn trim_newlines(s: Seq<char>) -> Seq<char>
    decreases s.len(),
{
    if s.len() > 0 && s.last() == '\n' {
        trim_newlines(s.drop_last())
    } else {
        s
    }
}

/// Drops trailing spaces and tabs.
pub fn pop_trailing_blanks(v: &mut Vec<char>)
    ensures
        final(v)@ == trim_blanks(old(v)@),
{
    while v.len() > 0 && blank_char(v[v.len() - 1])
        invariant
            trim_blanks(v@) == trim_blanks(old(v)@),
        decreases v.len(),
    {
        v.pop();
    }
}

/// All characters of `v`, as a string.
pub fn string_of(v: &Vec<char>) -> (r: String)
    ensures
        r@ == v@,
{
    assert(v@.subrange(0, v@.len() as int) == v@);
    string_between(v, 0, v.len())
}

/// Drops trailing newlines.
pub fn without_trailing_newlines(s: &str) -> (r: String)
    ensures
        r@ == trim_newlines(s@),
{
    let v = chars_of(s);
    let mut n: usize = v.len();
    assert(v@.take(n as int) == v@);
    while n > 0 && v[n - 1] == '\n'
        invariant
            n <= v@.len(),
            v@ == s@,
            trim_newlines(s@) == trim_newlines(v@.take(n as int)),
        decreases n,
    {
        n -= 1;
        assert(v@.take(n + 1).drop_last() == v@.take(n as int));
    }
    assert(v@.take(n as int) == v@.subrange(0, n as int));
    string_between(&v, 0, n)
}

/// The characters of an optional string.
pub open spec fn optional_text(s: Option<String>) -> Option<Seq<char>> {
    match s {
        Some(s) => Some(s@),
        None => None,
    }
}

pub fn copy_text(s: &Option<String>) -> (r: Option<String>)
    ensures
        optional_text(r) == optional_text(*s),
{
    match s {
        Some(s) => Some(s.clone()),
        None => None,
    }
}

// ---------------------------------------------------------------------------
// Numerals
// ---------------------------------------------------------------------------

/// `char::from_u32` accepts exactly the Unicode scalar values and keeps the number.
pub assume_specification[ char::from_u32 ](i: u32) -> (c: Option<char>)
    ensures
        c == (if is_scalar_value(i as nat) { Some(i as char) } else { None::<char> }),
;

/// A number that some `char` has.
pub open spec fn is_scalar_value(n: nat) -> bool {
    n <= 0x10_ffff && !(0xd800 <= n <= 0xdfff)
}

/// The value of a digit in bases up to 16.
pub open spec fn digit_value(c: char) -> Option<nat> {
    if '0' <= c <= '9' {
        Some((c as int - '0' as int) as nat)
    } else if 'a' <= c <= 'f' {
        Some((c as int - 'a' as int + 10) as nat)
    } else if 'A' <= c <= 'F' {
        Some((c as int - 'A' as int + 10) as nat)
    } else {
        None
    }
}

/// The digit character of value `d`, with letters in the given case.
pub open spec fn digit_symbol(d: nat, upper: bool) -> char {
    if d < 10 {
        ('0' as u8 + d) as char
    } else if upper {
        ('A' as u8 + d - 10) as char
    } else {
        ('a' as u8 + d - 10) as char
    }
}

/// `n` in hexadecimal, padded with zeros to at least `width` digits.
pub open spec fn hex_text(n: nat, width: nat, upper: bool) -> Seq<char>
    decreases n, width,
{
    if n < 16 && width <= 1 {
        seq![digit_symbol(n, upper)]
    } else {
        hex_text(n / 16, (if width > 0 { width - 1 } else { 0 }) as nat, upper).push(
            digit_symbol(n % 16, upper),
        )
    }
}

/// `n` in decimal.
pub open spec fn decimal_text(n: nat) -> Seq<char>
    decreases n,
{
    if n < 10 {
        seq![digit_symbol(n, false)]
    } else {
        decimal_text(n / 10).push(digit_symbol(n % 10, false))
    }
}

pub fn value_of_digit(c: char) -> (d: Option<u32>)
    ensures
        d is Some <==> digit_value(c) is Some,
        d matches Some(v) ==> v == digit_value(c)->0 && v < 16,
{
    if '0' <= c && c <= '9' {
        Some(c as u32 - '0' as u32)
    } else if 'a' <= c && c <= 'f' {
        Some(c as u32 - 'a' as u32 + 10)
    } else if 'A' <= c && c <= 'F' {
        Some(c as u32 - 'A' as u32 + 10)
    } else {
        None
    }
}

fn symbol_of_digit(d: u8, upper: bool) -> (c: char)
    requires
        d < 16,
    ensures
        c == digit_symbol(d as nat, upper),
{
    if d < 10 {
        (48 + d) as char
    } else if upper {
        (65 + (d - 10)) as char
    } else {
        (97 + (d - 10)) as char
    }
}

/// Writes `n` in hexadecimal with at least `width` digits.
pub fn hex_string(n: u32, width: usize, upper: bool) -> (s: String)
    ensures
        s@ == hex_text(n as nat, width as nat, upper),
    decreases n, width,
{
    if n < 16 && width <= 1 {
        let mut s = String::new();
        s.push(symbol_of_digit(n as u8, upper));
        assert(s@ == seq![digit_symbol(n as nat, upper)]);
        s
    } else {
        let rest: usize = if width > 0 {
            width - 1
        } else {
            0
        };
        let mut s = hex_string(n / 16, rest, upper);
        s.push(symbol_of_digit((n % 16) as u8, upper));
        s
    }
}

/// Writes `n` in decimal.
pub fn decimal_string(n: u64) -> (s: String)
    ensures
        s@ == decimal_text(n as nat),
    decreases n,
{
    if n < 10 {
        let mut s = String::new();
        s.push(symbol_of_digit(n as u8, false));
        assert(s@ == seq![digit_symbol(n as nat, false)]);
        s
    } else {
        let mut s = decimal_string(n / 10);
        s.push(symbol_of_digit((n % 10) as u8, false));
        s
    }
}

/// The text that `Debug` gives a string: quoted and escaped.
pub uninterp spec fn debug_text(s: Seq<char>) -> Seq<char>;

/// Formats a string with `Debug`, by way of `format!`. Claimed of it: the result
/// depends on the characters of `s` alone.
#[verifier::external_body]
pub(crate) fn debug_string(s: &str) -> (r: String)
    ensures
        r@ == debug_text(s@),
{
    format!("{s:?}")
}

/// Whether two strings hold the same characters.
pub fn same_text(a: &str, b: &str) -> (r: bool)
    ensures
        r == (a@ == b@),
{
    a.to_string() == b.to_string()
}

} // verus!
