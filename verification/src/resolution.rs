//! What plain scalars stand for, told from how they are written.

use crate::meta::ScalarStyle;
use crate::node::Node;
use crate::options::Schema;
use crate::scalar;
use crate::scalar::NAN;
use crate::text;
use vstd::prelude::*;

verus! {

// ---------------------------------------------------------------------------
// Numbers as they are written
// ---------------------------------------------------------------------------

/// What a digit counts: `0` to `9`, and `a` to `f` in either case.
pub open spec fn symbol(c: char) -> int {
    if '0' <= c && c <= '9' {
        c as int - 48
    } else if 'a' <= c && c <= 'f' {
        c as int - 87
    } else if 'A' <= c && c <= 'F' {
        c as int - 55
    } else {
        16
    }
}

/// Every character is a digit of the base.
pub open spec fn are_digits(ds: Seq<char>, base: int) -> bool {
    forall|i: int| 0 <= i < ds.len() ==> symbol(#[trigger] ds[i]) < base
}

/// The number that digits write: the last digit, and the base times what the others
/// write.
pub open spec fn number(ds: Seq<char>, base: int) -> int
    decreases ds.len(),
{
    if ds.len() == 0 {
        0
    } else {
        base * number(ds.drop_last(), base) + symbol(ds.last())
    }
}

/// No sign, `+` or `-`.
pub open spec fn is_sign(g: Seq<char>) -> bool {
    g == Seq::<char>::empty() || g == seq!['+'] || g == seq!['-']
}

/// The number with its sign.
pub open spec fn signed(g: Seq<char>, n: int) -> int {
    if g == seq!['-'] {
        -n
    } else {
        n
    }
}

/// A decimal number in its parts.
pub struct Decimal {
    pub sign: Seq<char>,
    pub whole: Seq<char>,
    /// What stands behind the point, if there is one.
    pub fraction: Option<Seq<char>>,
    /// The letter, the sign and the digits of the exponent, if there is one.
    pub exponent: Option<(char, Seq<char>, Seq<char>)>,
}

/// The parts of `[-+]?(D(.D?)?|.D)([eE][-+]?D)?`, where `D` is one or more digits.
pub open spec fn is_written(d: Decimal) -> bool {
    &&& is_sign(d.sign)
    &&& are_digits(d.whole, 10)
    &&& d.fraction matches Some(f) ==> are_digits(f, 10)
    &&& d.whole.len() > 0 || (d.fraction matches Some(f) && f.len() > 0)
    &&& d.exponent matches Some((e, g, ds)) ==> (e == 'e' || e == 'E') && is_sign(g) && are_digits(
        ds,
        10,
    ) && ds.len() > 0
}

/// The fraction with its point.
pub open spec fn fraction_text(d: Decimal) -> Seq<char> {
    match d.fraction {
        Some(f) => seq!['.'] + f,
        None => Seq::empty(),
    }
}

/// The exponent with its letter.
pub open spec fn exponent_text(d: Decimal) -> Seq<char> {
    match d.exponent {
        Some((e, g, ds)) => seq![e] + g + ds,
        None => Seq::empty(),
    }
}

/// The decimal number as it is written.
pub open spec fn decimal_text(d: Decimal) -> Seq<char> {
    d.sign + d.whole + fraction_text(d) + exponent_text(d)
}

/// What a plain scalar stands for.
pub open spec fn plain(s: Seq<char>, schema: Schema, float: u64) -> Node {
    scalar::resolved(s, ScalarStyle::Plain, schema, float)
}

/// The integer if 64 bits hold it, and the text otherwise.
pub open spec fn integer_or_text(n: int, s: Seq<char>) -> Node {
    if -0x8000_0000_0000_0000 <= n <= 0x7fff_ffff_ffff_ffff {
        Node::Int(n as i64)
    } else {
        Node::Str(s)
    }
}

// ---------------------------------------------------------------------------
// Digits
// ---------------------------------------------------------------------------

proof fn lemma_symbol(c: char, base: int)
    requires
        0 < base <= 16,
    ensures
        symbol(c) < base <==> (text::digit_value(c) matches Some(d) && d < base),
        symbol(c) < 16 ==> text::digit_value(c) == Some(symbol(c) as nat),
        0 <= symbol(c) <= 16,
        text::is_digit(c) <==> symbol(c) < 10,
{
}

/// The digits at the end of a text write their number.
proof fn lemma_value(s: Seq<char>, from: int, ds: Seq<char>, n: int, base: nat)
    requires
        0 <= from,
        0 <= n <= ds.len(),
        s.len() >= from + ds.len(),
        2 <= base <= 16,
        are_digits(ds, base as int),
        forall|k: int| 0 <= k < ds.len() ==> s[from + k] == #[trigger] ds[k],
    ensures
        scalar::digits_value(s, from, from + n, base) == number(ds.take(n), base as int),
    decreases n,
{
    if n > 0 {
        lemma_value(s, from, ds, n - 1, base);
        assert(ds.take(n).drop_last() == ds.take(n - 1));
        assert(ds.take(n).last() == ds[n - 1]);
        assert(s[from + (n - 1)] == ds[n - 1]);
        lemma_symbol(ds[n - 1], base as int);
        let v = number(ds.take(n - 1), base as int);
        assert(v * base == base * v) by (nonlinear_arith);
    }
}

/// A prefix and digits behind it are a numeral.
proof fn lemma_numeral(prefix: Seq<char>, ds: Seq<char>, base: nat, negative: bool)
    requires
        ds.len() > 0,
        2 <= base <= 16,
        are_digits(ds, base as int),
    ensures
        ({
            let s = prefix + ds;
            let n = scalar::Numeral { from: prefix.len() as int, base, negative };
            &&& scalar::is_numeral(s, n)
            &&& scalar::numeral_value(s, n) == if negative {
                -number(ds, base as int)
            } else {
                number(ds, base as int)
            }
        }),
{
    let s = prefix + ds;
    let from = prefix.len() as int;
    assert forall|k: int| 0 <= k < ds.len() implies s[from + k] == #[trigger] ds[k] by {}
    lemma_value(s, from, ds, ds.len() as int, base);
    assert(ds.take(ds.len() as int) == ds);
    assert forall|j: int| from <= j < s.len() implies (text::digit_value(#[trigger] s[j]) matches Some(
        d,
    ) && d < base) by {
        assert(s[j] == ds[j - from]);
        lemma_symbol(ds[j - from], base as int);
    }
}

/// A text that holds a digit is no word of the core schema.
proof fn lemma_no_word(s: Seq<char>, i: int)
    requires
        0 <= i < s.len(),
        symbol(s[i]) < 10,
    ensures
        !scalar::is_core_word(s),
        !scalar::is_yes_word(s),
        !scalar::is_no_word(s),
        s != "null"@ && s != "true"@ && s != "false"@,
{
    reveal_strlit("");
    reveal_strlit("~");
    reveal_strlit("null");
    reveal_strlit("Null");
    reveal_strlit("NULL");
    reveal_strlit("true");
    reveal_strlit("True");
    reveal_strlit("TRUE");
    reveal_strlit("false");
    reveal_strlit("False");
    reveal_strlit("FALSE");
    reveal_strlit(".inf");
    reveal_strlit(".Inf");
    reveal_strlit(".INF");
    reveal_strlit("+.inf");
    reveal_strlit("+.Inf");
    reveal_strlit("+.INF");
    reveal_strlit("-.inf");
    reveal_strlit("-.Inf");
    reveal_strlit("-.INF");
    reveal_strlit(".nan");
    reveal_strlit(".NaN");
    reveal_strlit(".NAN");
    reveal_strlit("y");
    reveal_strlit("Y");
    reveal_strlit("yes");
    reveal_strlit("Yes");
    reveal_strlit("YES");
    reveal_strlit("on");
    reveal_strlit("On");
    reveal_strlit("ON");
    reveal_strlit("n");
    reveal_strlit("N");
    reveal_strlit("no");
    reveal_strlit("No");
    reveal_strlit("NO");
    reveal_strlit("off");
    reveal_strlit("Off");
    reveal_strlit("OFF");
}

// ---------------------------------------------------------------------------
// Integers
// ---------------------------------------------------------------------------

/// A sign and decimal digits are that integer under the core schema, whatever zeros
/// they begin with; one that 64 bits do not hold stays a text.
pub proof fn law_core_integers(g: Seq<char>, ds: Seq<char>, float: u64)
    requires
        is_sign(g),
        ds.len() > 0,
        are_digits(ds, 10),
    ensures
        plain(g + ds, Schema::Core1_2, float) == integer_or_text(signed(g, number(ds, 10)), g + ds),
{
    let s = g + ds;
    assert(s[g.len() as int] == ds[0]);
    lemma_no_word(s, g.len() as int);
    lemma_numeral(g, ds, 10, g == seq!['-']);
    if s.len() >= 2 {
        assert(s[1] == 'x' || s[1] == 'o' ==> symbol(ds[1 - g.len()]) == 16);
    }
    assert(g == seq!['-'] ==> s[0] == '-');
    assert(scalar::core_numeral(s) == (scalar::Numeral {
        from: g.len() as int,
        base: 10,
        negative: g == seq!['-'],
    }));
}

/// `0x` and hex digits are that integer under the core schema, and so are `0o` and octal
/// digits.
pub proof fn law_core_integers_of_other_bases(ds: Seq<char>, float: u64)
    requires
        ds.len() > 0,
    ensures
        are_digits(ds, 16) ==> plain(seq!['0', 'x'] + ds, Schema::Core1_2, float)
            == integer_or_text(number(ds, 16), seq!['0', 'x'] + ds),
        are_digits(ds, 8) ==> plain(seq!['0', 'o'] + ds, Schema::Core1_2, float)
            == integer_or_text(number(ds, 8), seq!['0', 'o'] + ds),
{
    lemma_no_word(seq!['0', 'x'] + ds, 0);
    lemma_no_word(seq!['0', 'o'] + ds, 0);
    if are_digits(ds, 16) {
        lemma_numeral(seq!['0', 'x'], ds, 16, false);
    }
    if are_digits(ds, 8) {
        lemma_numeral(seq!['0', 'o'], ds, 8, false);
    }
}

/// The text is digits of the base behind the prefix.
pub open spec fn is_prefixed(s: Seq<char>, prefix: Seq<char>, base: int) -> bool {
    exists|ds: Seq<char>| ds.len() > 0 && are_digits(ds, base) && s == #[trigger] (prefix + ds)
}

proof fn lemma_prefixed(s: Seq<char>, n: scalar::Numeral)
    requires
        scalar::is_numeral(s, n),
        0 <= n.from,
        n.base == 8 || n.base == 10 || n.base == 16,
    ensures
        is_prefixed(s, s.take(n.from), n.base as int),
{
    let ds = s.skip(n.from);
    assert(s == s.take(n.from) + ds);
    assert forall|i: int| 0 <= i < ds.len() implies symbol(#[trigger] ds[i]) < n.base by {
        assert(ds[i] == s[n.from + i]);
        lemma_symbol(ds[i], n.base as int);
    }
}

/// Nothing else is an integer under the core schema.
pub proof fn law_core_integers_only(s: Seq<char>, float: u64)
    requires
        plain(s, Schema::Core1_2, float) is Int,
    ensures
        ({
            ||| is_prefixed(s, Seq::empty(), 10)
            ||| is_prefixed(s, seq!['+'], 10)
            ||| is_prefixed(s, seq!['-'], 10)
            ||| is_prefixed(s, seq!['0', 'x'], 16)
            ||| is_prefixed(s, seq!['0', 'o'], 8)
        }),
{
    let n = scalar::core_numeral(s);
    lemma_prefixed(s, n);
    let front = s.take(n.from);
    if n.from == 2 {
        assert(front == seq!['0', 'x'] || front == seq!['0', 'o']);
    } else if n.from == 1 {
        assert(front == seq!['+'] || front == seq!['-']);
    } else {
        assert(front == Seq::<char>::empty());
    }
}

// ---------------------------------------------------------------------------
// Decimals
// ---------------------------------------------------------------------------

/// Digits end where something else stands.
proof fn lemma_digits_are(s: Seq<char>, i: int, e: int)
    requires
        0 <= i <= e <= s.len(),
        forall|j: int| i <= j < e ==> symbol(#[trigger] s[j]) < 10,
        e < s.len() ==> symbol(s[e]) >= 10,
    ensures
        scalar::digits_end(s, i) == e,
    decreases e - i,
{
    if i < e {
        assert(symbol(s[i]) < 10);
        lemma_digits_are(s, i + 1, e);
    }
}

/// The places of the parts of a decimal number.
proof fn lemma_decimal_places(d: Decimal)
    requires
        is_written(d),
    ensures
        ({
            let s = decimal_text(d);
            let a = d.sign.len() as int;
            let b = a + d.whole.len();
            let c = b + fraction_text(d).len();
            &&& scalar::sign_end(s, 0) == a
            &&& scalar::digits_end(s, a) == b
            &&& scalar::fraction_end(s, b) == c
            &&& scalar::is_exponent_tail(s, c)
            &&& forall|i: int|
                0 <= i < s.len() ==> symbol(#[trigger] s[i]) < 10 || s[i] == '+' || s[i] == '-'
                    || s[i] == '.' || s[i] == 'e' || s[i] == 'E'
            &&& exists|i: int| 0 <= i < s.len() && symbol(#[trigger] s[i]) < 10
        }),
{
    let s = decimal_text(d);
    let a = d.sign.len() as int;
    let b = a + d.whole.len();
    let ft = fraction_text(d);
    let et = exponent_text(d);
    let c = b + ft.len();
    assert forall|k: int| 0 <= k < d.whole.len() implies s[a + k] == #[trigger] d.whole[k] by {}
    assert forall|k: int| 0 <= k < ft.len() implies s[b + k] == #[trigger] ft[k] by {}
    assert forall|k: int| 0 <= k < et.len() implies s[c + k] == #[trigger] et[k] by {}
    assert forall|j: int| a <= j < b implies symbol(#[trigger] s[j]) < 10 by {
        assert(s[j] == d.whole[j - a]);
    }
    assert(et.len() > 0 ==> s[c + 0] == et[0]);
    assert(ft.len() > 0 ==> s[b + 0] == ft[0]);
    if a > 0 {
        assert(s[0] == d.sign[0]);
    }
    if d.sign.len() == 0 {
        if d.whole.len() > 0 {
            assert(s[a] == d.whole[0]);
        }
    }
    lemma_digits_are(s, a, b);
    match d.fraction {
        Some(f) => {
            assert forall|j: int| b + 1 <= j < c implies symbol(#[trigger] s[j]) < 10 by {
                assert(s[b + (j - b)] == ft[j - b]);
                assert(ft[j - b] == f[j - b - 1]);
            }
            lemma_digits_are(s, b + 1, c);
        },
        None => {},
    }
    match d.exponent {
        Some((e, g, ds)) => {
            let from = c + 1 + g.len();
            assert(g.len() > 0 ==> s[c + 1] == et[1] && et[1] == g[0]);
            assert forall|j: int| from <= j < s.len() implies symbol(#[trigger] s[j]) < 10 by {
                assert(s[c + (j - c)] == et[j - c]);
                assert(et[j - c] == ds[j - from]);
            }
            assert(symbol(s[from]) < 10);
            lemma_digits_are(s, from, s.len() as int);
            assert(scalar::sign_end(s, c + 1) == from);
        },
        None => {},
    }
    assert forall|i: int| 0 <= i < s.len() implies symbol(#[trigger] s[i]) < 10 || s[i] == '+'
        || s[i] == '-' || s[i] == '.' || s[i] == 'e' || s[i] == 'E' by {
        if i < a {
            assert(s[i] == d.sign[i]);
        } else if b <= i < c {
            assert(s[b + (i - b)] == ft[i - b]);
        } else if c <= i {
            assert(s[c + (i - c)] == et[i - c]);
        }
    }
    if d.whole.len() > 0 {
        assert(symbol(s[a]) < 10);
    } else {
        assert(s[b + 1] == ft[1]);
        assert(symbol(s[b + 1]) < 10);
    }
}

/// Every decimal number that has a point or an exponent is the float it writes, under the
/// core schema and that of YAML 1.1. The number itself is taken from the caller.
pub proof fn law_decimals_are_floats(d: Decimal, float: u64)
    requires
        is_written(d),
        d.fraction is Some || d.exponent is Some,
    ensures
        plain(decimal_text(d), Schema::Core1_2, float) == Node::Float(float),
        plain(decimal_text(d), Schema::Yaml1_1, float) == Node::Float(float),
{
    let s = decimal_text(d);
    lemma_decimal_places(d);
    let i = choose|i: int| 0 <= i < s.len() && symbol(#[trigger] s[i]) < 10;
    lemma_no_word(s, i);
    let a = d.sign.len() as int;
    let b = a + d.whole.len();
    let c = b + fraction_text(d).len();
    let mark = if d.fraction is Some { b } else { c };
    assert(s[mark] == '.' || s[mark] == 'e' || s[mark] == 'E') by {
        if d.fraction is Some {
            assert(s[b] == fraction_text(d)[0]);
        } else {
            assert(s[c] == exponent_text(d)[0]);
        }
    }
    let n = scalar::core_numeral(s);
    if s.len() >= 2 {
        assert(s[1] != 'x' && s[1] != 'o');
    }
    assert(n.base == 10 && n.from <= mark);
    assert(!scalar::is_core_integer(s)) by {
        assert(text::digit_value(s[mark]) matches Some(v) ==> v >= 10);
    }
    assert(!scalar::is_zero_numeral(s)) by {
        assert(text::digit_value(s[mark]) matches Some(v) ==> v >= 8);
    }
}

/// A scalar that takes its float from the caller is a decimal number with a point or an
/// exponent, under the core schema and that of YAML 1.1.
pub proof fn law_floats_are_decimals(s: Seq<char>, schema: Schema) -> (d: Decimal)
    requires
        schema == Schema::Core1_2 || schema == Schema::Yaml1_1,
        plain(s, schema, 0) != plain(s, schema, 1),
    ensures
        is_written(d),
        d.fraction is Some || d.exponent is Some,
        s == decimal_text(d),
{
    let a = scalar::sign_end(s, 0);
    let b = scalar::digits_end(s, a);
    let c = scalar::fraction_end(s, b);
    let e = scalar::sign_end(s, c + 1);
    scalar::lemma_digits_end(s, a);
    scalar::lemma_digits_end(s, b + 1);
    scalar::lemma_digits_end(s, e);
    let fraction = if b < c {
        Some(s.subrange(b + 1, c))
    } else {
        None
    };
    let exponent = if c < s.len() {
        Some((s[c], s.subrange(c + 1, e), s.skip(e)))
    } else {
        None
    };
    let d = Decimal { sign: s.take(a), whole: s.subrange(a, b), fraction, exponent };
    assert(is_sign(d.sign)) by {
        assert(a == 0 ==> d.sign == Seq::<char>::empty());
        assert(a == 1 ==> d.sign == seq![s[0]]);
    }
    assert forall|i: int| 0 <= i < d.whole.len() implies symbol(#[trigger] d.whole[i]) < 10 by {
        assert(text::is_digit(s[a + i]));
    }
    if let Some(f) = fraction {
        assert forall|i: int| 0 <= i < f.len() implies symbol(#[trigger] f[i]) < 10 by {
            assert(text::is_digit(s[b + 1 + i]));
        }
        assert(fraction_text(d) == s.subrange(b, c));
    }
    if let Some((x, g, ds)) = exponent {
        assert(e == c + 1 ==> g == Seq::<char>::empty());
        assert(e == c + 2 ==> g == seq![s[c + 1]]);
        assert forall|i: int| 0 <= i < ds.len() implies symbol(#[trigger] ds[i]) < 10 by {
            assert(text::is_digit(s[e + i]));
        }
        assert(exponent_text(d) == s.skip(c));
    }
    assert(s == decimal_text(d));
    if fraction is None && exponent is None {
        let n = scalar::core_numeral(s);
        if s.len() >= 2 && (s[1] == 'x' || s[1] == 'o') && a == 0 {
            assert(text::is_digit(s[1]));
        }
        assert(n.base == 10 && n.from == a);
        assert forall|j: int| a <= j < s.len() implies (text::digit_value(#[trigger] s[j]) matches Some(
            v,
        ) && v < 10) by {
            assert(text::is_digit(s[j]));
        }
        assert(scalar::is_core_integer(s));
    }
    d
}

// ---------------------------------------------------------------------------
// Words
// ---------------------------------------------------------------------------

/// The words of the core schema, and what each stands for. No other text stands for null
/// or a boolean, and none that is no decimal for a float.
pub proof fn law_core_words(s: Seq<char>, float: u64)
    ensures
        plain(s, Schema::Core1_2, float) == Node::Null <==> (s == ""@ || s == "~"@ || s == "null"@
            || s == "Null"@ || s == "NULL"@),
        plain(s, Schema::Core1_2, float) == Node::Bool(true) <==> (s == "true"@ || s == "True"@ || s
            == "TRUE"@),
        plain(s, Schema::Core1_2, float) == Node::Bool(false) <==> (s == "false"@ || s == "False"@
            || s == "FALSE"@),
        float == 0 ==> (plain(s, Schema::Core1_2, float) == Node::Float(0x7ff0_0000_0000_0000)
            <==> (s == ".inf"@ || s == ".Inf"@ || s == ".INF"@ || s == "+.inf"@ || s == "+.Inf"@
            || s == "+.INF"@)),
        float == 0 ==> (plain(s, Schema::Core1_2, float) == Node::Float(0xfff0_0000_0000_0000)
            <==> (s == "-.inf"@ || s == "-.Inf"@ || s == "-.INF"@)),
        float == 0 ==> (plain(s, Schema::Core1_2, float) == Node::Float(0x7ff8_0000_0000_0000)
            <==> (s == ".nan"@ || s == ".NaN"@ || s == ".NAN"@)),
{
    lemma_words_begin(s);
}

/// How the words begin.
proof fn lemma_words_begin(s: Seq<char>)
    ensures
        scalar::is_null_word(s) ==> s.len() == 0 || s[0] == '~' || s[0] == 'n' || s[0] == 'N',
        scalar::is_true_word(s) ==> s.len() > 0 && (s[0] == 't' || s[0] == 'T'),
        scalar::is_false_word(s) ==> s.len() > 0 && (s[0] == 'f' || s[0] == 'F'),
        scalar::is_inf_word(s) ==> s.len() > 1 && (s[0] == '+' || s[0] == '.' && (s[1] == 'i'
            || s[1] == 'I')),
        scalar::is_minus_inf_word(s) ==> s.len() > 1 && s[0] == '-',
        scalar::is_nan_word(s) ==> s.len() > 1 && s[0] == '.' && (s[1] == 'n' || s[1] == 'N'),
{
    reveal_strlit("");
    reveal_strlit("~");
    reveal_strlit("null");
    reveal_strlit("Null");
    reveal_strlit("NULL");
    reveal_strlit("true");
    reveal_strlit("True");
    reveal_strlit("TRUE");
    reveal_strlit("false");
    reveal_strlit("False");
    reveal_strlit("FALSE");
    reveal_strlit(".inf");
    reveal_strlit(".Inf");
    reveal_strlit(".INF");
    reveal_strlit("+.inf");
    reveal_strlit("+.Inf");
    reveal_strlit("+.INF");
    reveal_strlit("-.inf");
    reveal_strlit("-.Inf");
    reveal_strlit("-.INF");
    reveal_strlit(".nan");
    reveal_strlit(".NaN");
    reveal_strlit(".NAN");
}

/// The further words of YAML 1.1 are booleans; every other text that is no octal number
/// stands for what it does under the core schema.
pub proof fn law_yaml11_words(s: Seq<char>, float: u64)
    ensures
        s == "y"@ || s == "Y"@ || s == "yes"@ || s == "Yes"@ || s == "YES"@ || s == "on"@ || s
            == "On"@ || s == "ON"@ ==> plain(s, Schema::Yaml1_1, float) == Node::Bool(true),
        s == "n"@ || s == "N"@ || s == "no"@ || s == "No"@ || s == "NO"@ || s == "off"@ || s
            == "Off"@ || s == "OFF"@ ==> plain(s, Schema::Yaml1_1, float) == Node::Bool(false),
        plain(s, Schema::Yaml1_1, float) != plain(s, Schema::Core1_2, float) ==> {
            ||| s == "y"@ || s == "Y"@ || s == "yes"@ || s == "Yes"@ || s == "YES"@
            ||| s == "on"@ || s == "On"@ || s == "ON"@
            ||| s == "n"@ || s == "N"@ || s == "no"@ || s == "No"@ || s == "NO"@
            ||| s == "off"@ || s == "Off"@ || s == "OFF"@
            ||| is_prefixed(s, seq!['0'], 8)
            ||| is_prefixed(s, seq!['+', '0'], 8)
            ||| is_prefixed(s, seq!['-', '0'], 8)
        },
{
    reveal_strlit("y");
    reveal_strlit("Y");
    reveal_strlit("yes");
    reveal_strlit("Yes");
    reveal_strlit("YES");
    reveal_strlit("on");
    reveal_strlit("On");
    reveal_strlit("ON");
    reveal_strlit("n");
    reveal_strlit("N");
    reveal_strlit("no");
    reveal_strlit("No");
    reveal_strlit("NO");
    reveal_strlit("off");
    reveal_strlit("Off");
    reveal_strlit("OFF");
    if s.len() > 0 {
        if scalar::is_yes_word(s) {
            assert(s[0] == 'y' || s[0] == 'Y' || s[0] == 'o' || s[0] == 'O');
        }
        if scalar::is_no_word(s) {
            assert(s[0] == 'n' || s[0] == 'N' || s[0] == 'o' || s[0] == 'O');
        }
        if s[0] == 'o' || s[0] == 'O' {
            if scalar::is_yes_word(s) {
                assert(s.len() == 2);
            }
            if scalar::is_no_word(s) {
                assert(s.len() == 3);
            }
        }
    }
    if scalar::is_zero_numeral(s) {
        let n = scalar::zero_numeral(s);
        let from = n.from + 1;
        let ds = s.skip(from);
        let front = s.take(from);
        assert(s == front + ds);
        assert forall|i: int| 0 <= i < ds.len() implies symbol(#[trigger] ds[i]) < 8 by {
            assert(ds[i] == s[from + i]);
            lemma_symbol(ds[i], 8);
        }
        assert(front == seq!['0'] || front == seq!['+', '0'] || front == seq!['-', '0']);
    }
}

/// A sign, a zero and more digits are an octal number under YAML 1.1.
pub proof fn law_yaml11_octals(g: Seq<char>, ds: Seq<char>, float: u64)
    requires
        is_sign(g),
        ds.len() > 0,
        are_digits(ds, 8),
    ensures
        plain(g + seq!['0'] + ds, Schema::Yaml1_1, float) == integer_or_text(
            signed(g, number(ds, 8)),
            g + seq!['0'] + ds,
        ),
{
    let all = seq!['0'] + ds;
    let s = g + all;
    assert(s == g + seq!['0'] + ds);
    assert forall|i: int| 0 <= i < all.len() implies symbol(#[trigger] all[i]) < 8 by {
        if i > 0 {
            assert(all[i] == ds[i - 1]);
        }
    }
    lemma_leading_zero(ds, 8);
    assert(s[g.len() as int] == '0');
    lemma_no_word(s, g.len() as int);
    lemma_numeral(g, all, 8, g == seq!['-']);
    assert(g.len() > 0 ==> s[0] == g[0]);
}

/// A zero before other digits adds nothing.
proof fn lemma_leading_zero(ds: Seq<char>, base: int)
    ensures
        number(seq!['0'] + ds, base) == number(ds, base),
    decreases ds.len(),
{
    let all = seq!['0'] + ds;
    if ds.len() > 0 {
        assert(all.drop_last() == seq!['0'] + ds.drop_last());
        lemma_leading_zero(ds.drop_last(), base);
    } else {
        assert(all.drop_last() == Seq::<char>::empty());
        assert(number(all.drop_last(), base) == 0);
        assert(base * 0 == 0) by (nonlinear_arith);
    }
}

/// The words of JSON, and what each stands for; no other text stands for null or a
/// boolean under its schema.
pub proof fn law_json_words(s: Seq<char>, float: u64)
    ensures
        plain(s, Schema::Json1_2, float) == Node::Null <==> s == "null"@,
        plain(s, Schema::Json1_2, float) == Node::Bool(true) <==> s == "true"@,
        plain(s, Schema::Json1_2, float) == Node::Bool(false) <==> s == "false"@,
{
    reveal_strlit("null");
    reveal_strlit("true");
    reveal_strlit("false");
    assert("null"@[0] == 'n' && "true"@[0] == 't' && "false"@[0] == 'f');
}

/// An optional minus sign and digits that begin with no needless zero are an integer
/// under the JSON schema.
pub proof fn law_json_integers(minus: bool, ds: Seq<char>, float: u64)
    requires
        ds.len() > 0,
        are_digits(ds, 10),
        ds[0] != '0' || ds.len() == 1,
    ensures
        ({
            let g = if minus {
                seq!['-']
            } else {
                Seq::<char>::empty()
            };
            plain(g + ds, Schema::Json1_2, float) == integer_or_text(
                signed(g, number(ds, 10)),
                g + ds,
            )
        }),
{
    let g = if minus {
        seq!['-']
    } else {
        Seq::<char>::empty()
    };
    let s = g + ds;
    assert(s[g.len() as int] == ds[0]);
    lemma_no_word(s, g.len() as int);
    lemma_numeral(g, ds, 10, minus);
    if s.len() >= 2 {
        assert(s[1] == 'x' || s[1] == 'o' ==> symbol(ds[1 - g.len()]) == 16);
    }
    assert(minus ==> s[0] == '-');
    assert(!minus ==> s[0] == ds[0]);
    assert(minus <==> g == seq!['-']);
    assert(scalar::core_numeral(s) == (scalar::Numeral {
        from: g.len() as int,
        base: 10,
        negative: minus,
    }));
}

/// A decimal number with a point or an exponent is the float it writes under the JSON
/// schema too, if its sign is no plus and its whole part begins with no needless zero.
pub proof fn law_json_decimals_are_floats(d: Decimal, float: u64)
    requires
        is_written(d),
        d.fraction is Some || d.exponent is Some,
        d.sign != seq!['+'],
        d.whole.len() > 0,
        d.whole[0] != '0' || d.whole.len() == 1,
    ensures
        plain(decimal_text(d), Schema::Json1_2, float) == Node::Float(float),
{
    let s = decimal_text(d);
    lemma_decimal_places(d);
    let a = d.sign.len() as int;
    let b = a + d.whole.len();
    let c = b + fraction_text(d).len();
    assert(s[a] == d.whole[0]);
    lemma_no_word(s, a);
    assert(a == 1 ==> s[0] == d.sign[0]);
    let mark = if d.fraction is Some { b } else { c };
    assert(s[mark] == '.' || s[mark] == 'e' || s[mark] == 'E') by {
        if d.fraction is Some {
            assert(s[b] == fraction_text(d)[0]);
        } else {
            assert(s[c] == exponent_text(d)[0]);
        }
    }
    assert(!scalar::is_json_integer(s)) by {
        assert(text::digit_value(s[mark]) matches Some(v) ==> v >= 10);
    }
}

/// Under the JSON schema no text but a decimal number stands for a number: an integer has
/// an optional minus sign and digits only, and a scalar that takes its float from the
/// caller has no plus sign and digits before its point or exponent.
pub proof fn law_json_numbers_only(s: Seq<char>, float: u64)
    ensures
        plain(s, Schema::Json1_2, float) is Int ==> is_prefixed(s, Seq::empty(), 10)
            || is_prefixed(s, seq!['-'], 10),
        plain(s, Schema::Json1_2, 0) != plain(s, Schema::Json1_2, 1) ==> {
            &&& plain(s, Schema::Core1_2, float) == Node::Float(float)
            &&& s.len() > 0 && (symbol(s[0]) < 10 || s.len() > 1 && s[0] == '-' && symbol(s[1]) < 10)
        },
{
    if scalar::is_json_integer(s) {
        let from = if s[0] == '-' { 1int } else { 0 };
        let n = scalar::Numeral { from, base: 10, negative: from == 1 };
        lemma_prefixed(s, n);
        assert(s.take(from) == if from == 1 { seq!['-'] } else { Seq::<char>::empty() });
    }
    if plain(s, Schema::Json1_2, 0) != plain(s, Schema::Json1_2, 1) {
        let a = if s[0] == '-' { 1int } else { 0 };
        let b = scalar::digits_end(s, a);
        scalar::lemma_digits_end(s, a);
        scalar::lemma_digits_end(s, b + 1);
        assert(text::is_digit(s[a]));
        lemma_no_word(s, a);
        assert(scalar::sign_end(s, 0) == a);
        assert(scalar::is_decimal(s));
        let n = scalar::core_numeral(s);
        if scalar::is_core_integer(s) {
            if n.base != 10 {
                assert(b == 1);
                assert(s[1] == 'x' || s[1] == 'o');
            }
            let c = scalar::fraction_end(s, b);
            if b < s.len() {
                assert(text::digit_value(s[b]) matches Some(v) && v < n.base);
            }
            assert(false);
        }
    }
}

} // verus!
