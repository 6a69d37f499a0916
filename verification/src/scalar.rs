//! Plain-scalar resolution: raw text to typed data, per schema.

use crate::meta::ScalarStyle;
use crate::node::Node;
use crate::options::Schema;
use crate::text;
use crate::text::{chars_of, digit_char, same_text, value_of_digit};
use crate::value;
use crate::value::ValueData;
use vstd::prelude::*;

verus! {

// ---------------------------------------------------------------------------
// Words
// ---------------------------------------------------------------------------

/// A word for null.
pub open spec fn is_null_word(s: Seq<char>) -> bool {
    s == ""@ || s == "~"@ || s == "null"@ || s == "Null"@ || s == "NULL"@
}

/// A word for true.
pub open spec fn is_true_word(s: Seq<char>) -> bool {
    s == "true"@ || s == "True"@ || s == "TRUE"@
}

/// A word for false.
pub open spec fn is_false_word(s: Seq<char>) -> bool {
    s == "false"@ || s == "False"@ || s == "FALSE"@
}

/// A word for true in YAML 1.1 alone.
pub open spec fn is_yes_word(s: Seq<char>) -> bool {
    s == "y"@ || s == "Y"@ || s == "yes"@ || s == "Yes"@ || s == "YES"@ || s == "on"@ || s == "On"@
        || s == "ON"@
}

/// A word for false in YAML 1.1 alone.
pub open spec fn is_no_word(s: Seq<char>) -> bool {
    s == "n"@ || s == "N"@ || s == "no"@ || s == "No"@ || s == "NO"@ || s == "off"@ || s == "Off"@
        || s == "OFF"@
}

/// A word for positive infinity.
pub open spec fn is_inf_word(s: Seq<char>) -> bool {
    s == ".inf"@ || s == ".Inf"@ || s == ".INF"@ || s == "+.inf"@ || s == "+.Inf"@ || s
        == "+.INF"@
}

/// A word for negative infinity.
pub open spec fn is_minus_inf_word(s: Seq<char>) -> bool {
    s == "-.inf"@ || s == "-.Inf"@ || s == "-.INF"@
}

/// A word for not-a-number.
pub open spec fn is_nan_word(s: Seq<char>) -> bool {
    s == ".nan"@ || s == ".NaN"@ || s == ".NAN"@
}

/// The bits of positive infinity.
pub const INFINITY: u64 = 0x7ff0_0000_0000_0000;

/// The bits of negative infinity.
pub const NEG_INFINITY: u64 = 0xfff0_0000_0000_0000;

/// The bits of not-a-number.
pub const NAN: u64 = 0x7ff8_0000_0000_0000;

fn null_word(s: &str) -> (b: bool)
    ensures
        b == is_null_word(s@),
{
    same_text(s, "") || same_text(s, "~") || same_text(s, "null") || same_text(s, "Null")
        || same_text(s, "NULL")
}

fn true_word(s: &str) -> (b: bool)
    ensures
        b == is_true_word(s@),
{
    same_text(s, "true") || same_text(s, "True") || same_text(s, "TRUE")
}

fn false_word(s: &str) -> (b: bool)
    ensures
        b == is_false_word(s@),
{
    same_text(s, "false") || same_text(s, "False") || same_text(s, "FALSE")
}

fn yes_word(s: &str) -> (b: bool)
    ensures
        b == is_yes_word(s@),
{
    same_text(s, "y") || same_text(s, "Y") || same_text(s, "yes") || same_text(s, "Yes")
        || same_text(s, "YES") || same_text(s, "on") || same_text(s, "On") || same_text(s, "ON")
}

fn no_word(s: &str) -> (b: bool)
    ensures
        b == is_no_word(s@),
{
    same_text(s, "n") || same_text(s, "N") || same_text(s, "no") || same_text(s, "No")
        || same_text(s, "NO") || same_text(s, "off") || same_text(s, "Off") || same_text(s, "OFF")
}

fn inf_word(s: &str) -> (b: bool)
    ensures
        b == is_inf_word(s@),
{
    same_text(s, ".inf") || same_text(s, ".Inf") || same_text(s, ".INF") || same_text(s, "+.inf")
        || same_text(s, "+.Inf") || same_text(s, "+.INF")
}

fn minus_inf_word(s: &str) -> (b: bool)
    ensures
        b == is_minus_inf_word(s@),
{
    same_text(s, "-.inf") || same_text(s, "-.Inf") || same_text(s, "-.INF")
}

fn nan_word(s: &str) -> (b: bool)
    ensures
        b == is_nan_word(s@),
{
    same_text(s, ".nan") || same_text(s, ".NaN") || same_text(s, ".NAN")
}

// ---------------------------------------------------------------------------
// Integers
// ---------------------------------------------------------------------------

/// Every character from `i` on is a digit of the given base.
pub open spec fn digits_from(s: Seq<char>, i: int, base: nat) -> bool {
    forall|j: int|
        i <= j < s.len() ==> (text::digit_value(#[trigger] s[j]) matches Some(d) && d < base)
}

/// The number that the digits between `i` and `n` write.
pub open spec fn digits_value(s: Seq<char>, i: int, n: int, base: nat) -> nat
    decreases n - i,
{
    if n <= i {
        0
    } else {
        digits_value(s, i, n - 1, base) * base + (match text::digit_value(s[n - 1]) {
            Some(d) => d,
            None => 0,
        })
    }
}

/// How an integer is written: where its digits begin, their base, its sign.
pub struct Numeral {
    pub from: int,
    pub base: nat,
    pub negative: bool,
}

/// The value of a numeral that fills the rest of `s`.
pub open spec fn numeral_value(s: Seq<char>, n: Numeral) -> int {
    let magnitude = digits_value(s, n.from, s.len() as int, n.base) as int;
    if n.negative {
        -magnitude
    } else {
        magnitude
    }
}

/// At least one digit fills the rest of `s`.
pub open spec fn is_numeral(s: Seq<char>, n: Numeral) -> bool {
    n.from < s.len() && digits_from(s, n.from, n.base)
}

/// How a core integer is written: `0x` and hex digits, `0o` and octal digits, or
/// an optional sign and decimal digits.
pub open spec fn core_numeral(s: Seq<char>) -> Numeral {
    if s.len() >= 2 && s[0] == '0' && s[1] == 'x' {
        Numeral { from: 2, base: 16, negative: false }
    } else if s.len() >= 2 && s[0] == '0' && s[1] == 'o' {
        Numeral { from: 2, base: 8, negative: false }
    } else if s.len() >= 1 && (s[0] == '+' || s[0] == '-') {
        Numeral { from: 1, base: 10, negative: s[0] == '-' }
    } else {
        Numeral { from: 0, base: 10, negative: false }
    }
}

/// How a YAML 1.1 integer with a leading zero is written: an optional sign, the
/// zero, and octal digits.
pub open spec fn zero_numeral(s: Seq<char>) -> Numeral {
    if s.len() >= 1 && (s[0] == '+' || s[0] == '-') {
        Numeral { from: 1, base: 8, negative: s[0] == '-' }
    } else {
        Numeral { from: 0, base: 8, negative: false }
    }
}

/// An octal numeral of YAML 1.1: a zero and at least one more digit.
pub open spec fn is_zero_numeral(s: Seq<char>) -> bool {
    let n = zero_numeral(s);
    n.from + 1 < s.len() && s[n.from] == '0' && is_numeral(s, n)
}

/// The JSON integer `-?(0|[1-9][0-9]*)`.
pub open spec fn is_json_integer(s: Seq<char>) -> bool {
    let from = if s.len() >= 1 && s[0] == '-' {
        1int
    } else {
        0
    };
    is_numeral(s, Numeral { from, base: 10, negative: from == 1 }) && (s[from] != '0' || from + 1
        == s.len())
}

/// The integer that a numeral denotes if it fits, its text otherwise.
pub open spec fn integer_node(s: Seq<char>, n: Numeral) -> Node {
    let v = numeral_value(s, n);
    if i64::MIN <= v <= i64::MAX {
        Node::Int(v as i64)
    } else {
        Node::Str(s)
    }
}

/// More digits never make a number smaller.
proof fn lemma_digits_grow(s: Seq<char>, i: int, n: int, m: int, base: nat)
    requires
        i <= n <= m,
        base >= 1,
    ensures
        digits_value(s, i, n, base) <= digits_value(s, i, m, base),
    decreases m - n,
{
    if n < m {
        lemma_digits_grow(s, i, n, m - 1, base);
        let v = digits_value(s, i, m - 1, base);
        assert(v <= v * base) by (nonlinear_arith)
            requires
                base >= 1,
        ;
    }
}

fn all_digits(chars: &Vec<char>, from: usize, base: u32) -> (b: bool)
    requires
        from <= chars@.len(),
    ensures
        b == digits_from(chars@, from as int, base as nat),
{
    let mut i: usize = from;
    while i < chars.len()
        invariant
            from <= i <= chars.len(),
            forall|j: int|
                from <= j < i ==> (text::digit_value(#[trigger] chars@[j]) matches Some(d) && d
                    < base),
        decreases chars.len() - i,
    {
        match value_of_digit(chars[i]) {
            Some(d) => {
                if d >= base {
                    return false;
                }
            },
            None => {
                return false;
            },
        }
        i += 1;
    }
    true
}

/// The number that digits write, if a signed 64-bit integer can hold it.
fn digits_to_integer(chars: &Vec<char>, from: usize, base: u32, negative: bool) -> (r: Option<i64>)
    requires
        from <= chars@.len(),
        2 <= base <= 16,
        digits_from(chars@, from as int, base as nat),
    ensures
        ({
            let v = numeral_value(
                chars@,
                Numeral { from: from as int, base: base as nat, negative },
            );
            match r {
                Some(i) => i == v,
                None => !(i64::MIN <= v <= i64::MAX),
            }
        }),
{
    let mut acc: i128 = 0;
    let mut i: usize = from;
    while i < chars.len()
        invariant
            from <= i <= chars.len(),
            2 <= base <= 16,
            digits_from(chars@, from as int, base as nat),
            acc == digits_value(chars@, from as int, i as int, base as nat),
            0 <= acc <= 0x8000_0000_0000_0000,
        decreases chars.len() - i,
    {
        proof {
            assert(text::digit_value(chars@[i as int]) is Some);
        }
        let d: i128 = match value_of_digit(chars[i]) {
            Some(d) => d as i128,
            None => 0,
        };
        let wide: i128 = base as i128;
        proof {
            assert(acc * wide <= 0x8000_0000_0000_0000 * 16) by (nonlinear_arith)
                requires
                    0 <= acc <= 0x8000_0000_0000_0000,
                    2 <= wide <= 16,
            ;
            assert(0 <= acc * wide) by (nonlinear_arith)
                requires
                    0 <= acc,
                    2 <= wide,
            ;
        }
        let next: i128 = acc * wide + d;
        assert(next == digits_value(chars@, from as int, i + 1, base as nat));
        if next > 0x8000_0000_0000_0000 {
            proof {
                lemma_digits_grow(
                    chars@,
                    from as int,
                    i + 1,
                    chars@.len() as int,
                    base as nat,
                );
            }
            return None;
        }
        acc = next;
        i += 1;
    }
    let v: i128 = if negative {
        -acc
    } else {
        acc
    };
    if v <= 0x7fff_ffff_ffff_ffff {
        Some(v as i64)
    } else {
        None
    }
}

// ---------------------------------------------------------------------------
// Floats
// ---------------------------------------------------------------------------

/// Past the decimal digits at `i`.
pub open spec fn digits_end(s: Seq<char>, i: int) -> int
    decreases s.len() - i,
{
    if 0 <= i < s.len() && text::is_digit(s[i]) {
        digits_end(s, i + 1)
    } else {
        i
    }
}

/// Past an optional sign at `i`.
pub open spec fn sign_end(s: Seq<char>, i: int) -> int {
    if 0 <= i < s.len() && (s[i] == '+' || s[i] == '-') {
        i + 1
    } else {
        i
    }
}

/// Past an optional fraction at `i`: a dot and digits.
pub open spec fn fraction_end(s: Seq<char>, i: int) -> int {
    if 0 <= i < s.len() && s[i] == '.' {
        digits_end(s, i + 1)
    } else {
        i
    }
}

/// Nothing is left at `i`, or an exponent: `e` or `E`, an optional sign, digits.
pub open spec fn is_exponent_tail(s: Seq<char>, i: int) -> bool {
    if i == s.len() {
        true
    } else {
        let d = sign_end(s, i + 1);
        &&& 0 <= i < s.len()
        &&& s[i] == 'e' || s[i] == 'E'
        &&& d < digits_end(s, d)
        &&& digits_end(s, d) == s.len()
    }
}

/// A decimal number: an optional sign, digits with an optional dot among, before
/// or after them, and an optional exponent.
pub open spec fn is_decimal(s: Seq<char>) -> bool {
    let a = sign_end(s, 0);
    let b = digits_end(s, a);
    let c = fraction_end(s, b);
    (a < b || b + 1 < c) && is_exponent_tail(s, c)
}

/// The JSON number `-?(0|[1-9][0-9]*)(\.[0-9]*)?([eE][-+]?[0-9]+)?`.
pub open spec fn is_json_number(s: Seq<char>) -> bool {
    let a = if s.len() >= 1 && s[0] == '-' {
        1int
    } else {
        0
    };
    let b = digits_end(s, a);
    &&& a < b
    &&& s[a] != '0' || b == a + 1
    &&& is_exponent_tail(s, fraction_end(s, b))
}

/// Digits end inside the text, and only digits are passed over.
pub proof fn lemma_digits_end(s: Seq<char>, i: int)
    ensures
        i <= digits_end(s, i),
        0 <= i <= s.len() ==> digits_end(s, i) <= s.len(),
        forall|j: int| i <= j < digits_end(s, i) ==> text::is_digit(#[trigger] s[j]),
        0 <= i && digits_end(s, i) < s.len() ==> !text::is_digit(s[digits_end(s, i)]),
    decreases s.len() - i,
{
    if 0 <= i < s.len() && text::is_digit(s[i]) {
        lemma_digits_end(s, i + 1);
    }
}

fn skip_digits(chars: &Vec<char>, from: usize) -> (e: usize)
    requires
        from <= chars@.len(),
    ensures
        e == digits_end(chars@, from as int),
        from <= e <= chars@.len(),
{
    let mut i: usize = from;
    while i < chars.len() && digit_char(chars[i])
        invariant
            from <= i <= chars.len(),
            digits_end(chars@, i as int) == digits_end(chars@, from as int),
        decreases chars.len() - i,
    {
        i += 1;
    }
    i
}

fn skip_sign(chars: &Vec<char>, from: usize) -> (e: usize)
    requires
        from <= chars@.len(),
    ensures
        e == sign_end(chars@, from as int),
        from <= e <= chars@.len(),
{
    if from < chars.len() && (chars[from] == '+' || chars[from] == '-') {
        from + 1
    } else {
        from
    }
}

fn skip_fraction(chars: &Vec<char>, from: usize) -> (e: usize)
    requires
        from <= chars@.len(),
    ensures
        e == fraction_end(chars@, from as int),
        from <= e <= chars@.len(),
{
    if from < chars.len() && chars[from] == '.' {
        skip_digits(chars, from + 1)
    } else {
        from
    }
}

fn exponent_tail(chars: &Vec<char>, from: usize) -> (b: bool)
    requires
        from <= chars@.len(),
    ensures
        b == is_exponent_tail(chars@, from as int),
{
    if from == chars.len() {
        true
    } else if chars[from] == 'e' || chars[from] == 'E' {
        let d: usize = skip_sign(chars, from + 1);
        let e: usize = skip_digits(chars, d);
        d < e && e == chars.len()
    } else {
        false
    }
}

fn decimal(chars: &Vec<char>) -> (b: bool)
    ensures
        b == is_decimal(chars@),
{
    let a: usize = skip_sign(chars, 0);
    let b: usize = skip_digits(chars, a);
    let c: usize = skip_fraction(chars, b);
    (a < b || (b < c && b + 1 < c)) && exponent_tail(chars, c)
}

fn json_number(chars: &Vec<char>) -> (r: bool)
    ensures
        r == is_json_number(chars@),
{
    let a: usize = if chars.len() >= 1 && chars[0] == '-' {
        1
    } else {
        0
    };
    let b: usize = skip_digits(chars, a);
    a < b && (chars[a] != '0' || b == a + 1) && exponent_tail(chars, skip_fraction(chars, b))
}

// ---------------------------------------------------------------------------
// Resolution
// ---------------------------------------------------------------------------

/// A core integer.
pub open spec fn is_core_integer(s: Seq<char>) -> bool {
    is_numeral(s, core_numeral(s))
}

/// A core word: null, a boolean, an infinity or not-a-number.
pub open spec fn is_core_word(s: Seq<char>) -> bool {
    is_null_word(s) || is_true_word(s) || is_false_word(s) || is_inf_word(s) || is_minus_inf_word(s)
        || is_nan_word(s)
}

/// Core resolution; `float` is the number that `s` writes, if it is a decimal.
pub open spec fn by_core(s: Seq<char>, float: u64) -> Node {
    if is_null_word(s) {
        Node::Null
    } else if is_true_word(s) {
        Node::Bool(true)
    } else if is_false_word(s) {
        Node::Bool(false)
    } else if is_inf_word(s) {
        Node::Float(INFINITY)
    } else if is_minus_inf_word(s) {
        Node::Float(NEG_INFINITY)
    } else if is_nan_word(s) {
        Node::Float(NAN)
    } else if is_core_integer(s) {
        integer_node(s, core_numeral(s))
    } else if is_decimal(s) {
        Node::Float(float)
    } else {
        Node::Str(s)
    }
}

/// YAML 1.1 resolution: more words for booleans, and octal integers with a
/// leading zero; the rest as in the core schema.
pub open spec fn by_yaml11(s: Seq<char>, float: u64) -> Node {
    if is_yes_word(s) {
        Node::Bool(true)
    } else if is_no_word(s) {
        Node::Bool(false)
    } else if is_zero_numeral(s) {
        integer_node(s, zero_numeral(s))
    } else {
        by_core(s, float)
    }
}

/// JSON resolution: JSON's words and numbers, and nothing else.
pub open spec fn by_json(s: Seq<char>, float: u64) -> Node {
    if s == "null"@ {
        Node::Null
    } else if s == "true"@ {
        Node::Bool(true)
    } else if s == "false"@ {
        Node::Bool(false)
    } else if is_json_integer(s) {
        integer_node(s, core_numeral(s))
    } else if is_json_number(s) {
        Node::Float(float)
    } else {
        Node::Str(s)
    }
}

/// What a scalar stands for. Only plain scalars are resolved; any other style,
/// and the failsafe schema, give a string.
pub open spec fn resolved(s: Seq<char>, style: ScalarStyle, schema: Schema, float: u64) -> Node {
    if style != ScalarStyle::Plain {
        Node::Str(s)
    } else {
        match schema {
            Schema::Failsafe => Node::Str(s),
            Schema::Core1_2 => by_core(s, float),
            Schema::Json1_2 => by_json(s, float),
            Schema::Yaml1_1 => by_yaml11(s, float),
        }
    }
}

/// The scalar is a decimal number, which resolution takes from its caller.
pub open spec fn is_float(s: Seq<char>, style: ScalarStyle, schema: Schema) -> bool {
    &&& style == ScalarStyle::Plain
    &&& match schema {
        Schema::Failsafe => false,
        Schema::Core1_2 => !is_core_word(s) && !is_core_integer(s) && is_decimal(s),
        Schema::Json1_2 => !is_json_integer(s) && is_json_number(s),
        Schema::Yaml1_1 => !is_yes_word(s) && !is_no_word(s) && !is_zero_numeral(s)
            && !is_core_word(s) && !is_core_integer(s) && is_decimal(s),
    }
}

fn integer_data(raw: &str, chars: &Vec<char>, from: usize, base: u32, negative: bool) -> (d:
    ValueData)
    requires
        chars@ == raw@,
        from <= chars@.len(),
        2 <= base <= 16,
        digits_from(chars@, from as int, base as nat),
    ensures
        value::data_node(d) == integer_node(
            raw@,
            (Numeral { from: from as int, base: base as nat, negative }),
        ),
{
    match digits_to_integer(chars, from, base, negative) {
        Some(i) => ValueData::Int(i),
        None => ValueData::String(raw.to_string()),
    }
}

fn resolve_core(raw: &str, float: u64) -> (d: ValueData)
    ensures
        value::data_node(d) == by_core(raw@, float),
{
    if null_word(raw) {
        return ValueData::Null;
    }
    if true_word(raw) {
        return ValueData::Bool(true);
    }
    if false_word(raw) {
        return ValueData::Bool(false);
    }
    if inf_word(raw) {
        return ValueData::Float(INFINITY);
    }
    if minus_inf_word(raw) {
        return ValueData::Float(NEG_INFINITY);
    }
    if nan_word(raw) {
        return ValueData::Float(NAN);
    }
    let chars = chars_of(raw);
    let (from, base, negative): (usize, u32, bool) = core_prefix(&chars);
    if from < chars.len() && all_digits(&chars, from, base) {
        return integer_data(raw, &chars, from, base, negative);
    }
    if decimal(&chars) {
        return ValueData::Float(float);
    }
    ValueData::String(raw.to_string())
}

/// Where the digits of a core integer begin, their base, and its sign.
fn core_prefix(chars: &Vec<char>) -> (r: (usize, u32, bool))
    ensures
        r.0 <= chars@.len(),
        r.1 == 8 || r.1 == 10 || r.1 == 16,
        core_numeral(chars@) == (Numeral { from: r.0 as int, base: r.1 as nat, negative: r.2 }),
{
    if chars.len() >= 2 && chars[0] == '0' && chars[1] == 'x' {
        (2, 16, false)
    } else if chars.len() >= 2 && chars[0] == '0' && chars[1] == 'o' {
        (2, 8, false)
    } else if chars.len() >= 1 && (chars[0] == '+' || chars[0] == '-') {
        (1, 10, chars[0] == '-')
    } else {
        (0, 10, false)
    }
}

fn resolve_yaml11(raw: &str, float: u64) -> (d: ValueData)
    ensures
        value::data_node(d) == by_yaml11(raw@, float),
{
    if yes_word(raw) {
        return ValueData::Bool(true);
    }
    if no_word(raw) {
        return ValueData::Bool(false);
    }
    let chars = chars_of(raw);
    let from: usize = skip_sign(&chars, 0);
    if from < chars.len() && from + 1 < chars.len() && chars[from] == '0' && all_digits(
        &chars,
        from,
        8,
    ) {
        return integer_data(raw, &chars, from, 8, chars[0] == '-');
    }
    resolve_core(raw, float)
}

fn resolve_json(raw: &str, float: u64) -> (d: ValueData)
    ensures
        value::data_node(d) == by_json(raw@, float),
{
    if same_text(raw, "null") {
        return ValueData::Null;
    }
    if same_text(raw, "true") {
        return ValueData::Bool(true);
    }
    if same_text(raw, "false") {
        return ValueData::Bool(false);
    }
    let chars = chars_of(raw);
    let from: usize = if chars.len() >= 1 && chars[0] == '-' {
        1
    } else {
        0
    };
    if from < chars.len() && all_digits(&chars, from, 10) && (chars[from] != '0' || from + 1
        == chars.len()) {
        proof {
            lemma_json_numeral(raw@);
        }
        return integer_data(raw, &chars, from, 10, from == 1);
    }
    if json_number(&chars) {
        return ValueData::Float(float);
    }
    ValueData::String(raw.to_string())
}

/// A JSON integer is a core integer with the same digits.
proof fn lemma_json_numeral(s: Seq<char>)
    requires
        is_json_integer(s),
    ensures
        core_numeral(s) == (Numeral {
            from: if s[0] == '-' {
                1
            } else {
                0
            },
            base: 10,
            negative: s[0] == '-',
        }),
{
    if s[0] != '-' {
        assert(text::digit_value(s[0]) is Some);
        if s.len() >= 2 && s[0] == '0' {
            assert(false);
        }
    }
}

/// Resolves a scalar's raw text into typed data according to `style` and
/// `schema`. `float` gives the bits of the number that the text writes; it is
/// looked at only where the text is a decimal number.
pub fn resolve(raw: &str, style: ScalarStyle, schema: Schema, float: u64) -> (d: ValueData)
    ensures
        value::data_node(d) == resolved(raw@, style, schema, float),
{
    if style != ScalarStyle::Plain {
        return ValueData::String(raw.to_string());
    }
    match schema {
        Schema::Failsafe => ValueData::String(raw.to_string()),
        Schema::Core1_2 => resolve_core(raw, float),
        Schema::Json1_2 => resolve_json(raw, float),
        Schema::Yaml1_1 => resolve_yaml11(raw, float),
    }
}

/// Whether a scalar is a decimal number, so that [`resolve`] looks at the float
/// it is given.
pub fn is_float_scalar(raw: &str, style: ScalarStyle, schema: Schema) -> (b: bool)
    ensures
        b == is_float(raw@, style, schema),
{
    proof {
        lemma_float_is_taken(raw@, style, schema);
    }
    match (resolve(raw, style, schema, 0), resolve(raw, style, schema, 1)) {
        (ValueData::Float(a), ValueData::Float(b)) => a != b,
        _ => false,
    }
}

/// A JSON number is no JSON word.
proof fn lemma_json_words(s: Seq<char>)
    ensures
        is_json_number(s) ==> s != "null"@ && s != "true"@ && s != "false"@,
{
    reveal_strlit("null");
    reveal_strlit("true");
    reveal_strlit("false");
    lemma_digits_end(s, 0);
    lemma_digits_end(s, 1);
}

/// A scalar resolves to the given float exactly if it is a decimal number.
proof fn lemma_float_is_taken(s: Seq<char>, style: ScalarStyle, schema: Schema)
    ensures
        is_float(s, style, schema) <==> (resolved(s, style, schema, 0) == Node::Float(0)
            && resolved(s, style, schema, 1) == Node::Float(1)),
        !is_float(s, style, schema) ==> resolved(s, style, schema, 0) == resolved(
            s,
            style,
            schema,
            1,
        ),
{
    lemma_json_words(s);
}

// ---------------------------------------------------------------------------
// Laws
// ---------------------------------------------------------------------------

/// A scalar that is quoted, literal or folded is always a string, and so is
/// every scalar under the failsafe schema.
pub proof fn law_only_plain_scalars_resolve(
    s: Seq<char>,
    style: ScalarStyle,
    schema: Schema,
    float: u64,
)
    requires
        style != ScalarStyle::Plain || schema == Schema::Failsafe,
    ensures
        resolved(s, style, schema, float) == Node::Str(s),
{
}

/// A scalar never resolves to a collection, and one that resolves to a string
/// resolves to itself.
pub proof fn law_scalars_resolve_to_scalars(
    s: Seq<char>,
    style: ScalarStyle,
    schema: Schema,
    float: u64,
)
    ensures
        !(resolved(s, style, schema, float) is Sequence),
        !(resolved(s, style, schema, float) is Mapping),
        resolved(s, style, schema, float) matches Node::Str(t) ==> t == s,
{
}

/// The given float matters for decimal numbers only, and there it is the result.
pub proof fn law_floats_come_from_decimals(
    s: Seq<char>,
    style: ScalarStyle,
    schema: Schema,
    float: u64,
    other: u64,
)
    ensures
        is_float(s, style, schema) ==> resolved(s, style, schema, float) == Node::Float(float),
        !is_float(s, style, schema) ==> resolved(s, style, schema, float) == resolved(
            s,
            style,
            schema,
            other,
        ),
{
    lemma_json_words(s);
}

} // verus!
