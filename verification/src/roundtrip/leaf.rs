//! Scalars: the scanner reads back what the emitter writes.

use crate::emitter;
use crate::scalar;
use crate::scanner::lex;
use crate::scanner::lex::{Run, Stop};
use crate::scanner::plain;
use crate::scanner::plain::PlainScalar;
use crate::scanner::quoted;
use crate::scanner::reader;
use crate::text;
use vstd::prelude::*;

verus! {

/// `s` stands in `text` at `i`.
pub open spec fn holds(text: Seq<char>, i: int, s: Seq<char>) -> bool {
    &&& 0 <= i
    &&& i + s.len() <= text.len()
    &&& forall|k: int| 0 <= k < s.len() ==> text[i + k] == #[trigger] s[k]
}

/// Where `a` and then `b` stand.
pub proof fn lemma_holds(text: Seq<char>, i: int, a: Seq<char>, b: Seq<char>)
    requires
        holds(text, i, a + b),
    ensures
        holds(text, i, a),
        holds(text, i + a.len(), b),
{
    assert forall|k: int| 0 <= k < a.len() implies text[i + k] == #[trigger] a[k] by {
        assert((a + b)[k] == a[k]);
    }
    assert forall|k: int| 0 <= k < b.len() implies text[i + a.len() + k] == #[trigger] b[k] by {
        assert((a + b)[a.len() + k] == b[k]);
    }
}

// ---------------------------------------------------------------------------
// Plain scalars
// ---------------------------------------------------------------------------

/// The only indicator that a safe plain scalar may begin with is the sign of a
/// number.
pub open spec fn safe_start(p: Seq<char>) -> bool {
    if p[0] == '-' {
        p.len() >= 2 && (text::is_digit(p[1]) || p[1] == '.')
    } else {
        !emitter::is_leading_indicator(p[0])
    }
}

/// A text that reads as one plain scalar wherever the emitter puts it.
pub open spec fn plain_safe(p: Seq<char>) -> bool {
    &&& p.len() > 0
    &&& safe_start(p)
    &&& p[0] != ' '
    &&& p.last() != ' '
    &&& p.last() != ':'
    &&& !emitter::has_pair(p, ':', ' ')
    &&& !emitter::has_pair(p, ' ', '#')
    &&& forall|i: int|
        0 <= i < p.len() ==> !text::is_flow_indicator(#[trigger] p[i]) && !emitter::is_control(p[i])
    &&& !emitter::reads_as_marker(p)
}

/// What the emitter puts behind a plain scalar: the end of a line that no other
/// content follows, a flow indicator, or the `: ` behind a key.
pub open spec fn ends_plain(text: Seq<char>, e: int) -> bool {
    ||| 0 <= e < text.len() && text::is_flow_indicator(text[e])
    ||| reader::char_at(text, e) == Some(':') && reader::char_at(text, e + 1) == Some(' ')
    ||| ends_document(text, e)
}

/// The end of the input, or a line break and then the end of the input or a `---`
/// marker.
pub open spec fn ends_document(text: Seq<char>, e: int) -> bool {
    ||| e == text.len()
    ||| reader::char_at(text, e) == Some('\n') && (e + 1 == text.len() || lex::marker_at(
        text,
        e + 1,
        '-',
    ))
}

/// A text without trailing blanks is not trimmed.
proof fn lemma_trim_nothing(s: Seq<char>)
    requires
        s.len() > 0,
        !text::is_blank(s.last()),
    ensures
        text::trim_blanks(s) == s,
{
}

/// Inside a safe plain scalar nothing stops the scan.
proof fn lemma_no_stop(text: Seq<char>, i: int, p: Seq<char>, k: int)
    requires
        holds(text, i, p),
        plain_safe(p),
        0 <= k < p.len(),
    ensures
        !plain::plain_stop(text, i + k),
{
    let c = p[k];
    assert(text[i + k] == c);
    assert(!text::is_flow_indicator(p[k]) && !emitter::is_control(p[k]));
    if k + 1 < p.len() {
        let d = p[k + 1];
        assert(text[i + (k + 1)] == d);
        assert(!text::is_flow_indicator(p[k + 1]) && !emitter::is_control(p[k + 1]));
        if c == ':' && d == ' ' {
            assert(emitter::pair_at(p, k, ':', ' '));
        }
        if c == ' ' && d == '#' {
            assert(emitter::pair_at(p, k, ' ', '#'));
        }
    }
}

/// A safe plain scalar is scanned whole.
pub proof fn lemma_plain(text: Seq<char>, i: int, p: Seq<char>, flow: bool, indent: int)
    requires
        holds(text, i, p),
        plain_safe(p),
        ends_plain(text, i + p.len()),
    ensures
        plain::plain_scalar(text, i, flow, indent) == (PlainScalar {
            value: p,
            end: i + p.len(),
            content_end: i + p.len(),
        }),
        !plain::plain_stop(text, i),
{
    let e = i + p.len();
    assert forall|j: int| i <= j < e implies !plain::plain_stop(text, j) by {
        lemma_no_stop(text, i, p, j - i);
        assert(i + (j - i) == j);
    }
    assert(plain::plain_stop(text, e));
    plain::lemma_plain_line_is(text, i, e);
    assert(text.subrange(i, e) == p) by {
        assert forall|k: int| 0 <= k < p.len() implies text.subrange(i, e)[k] == p[k] by {
            assert(text[i + k] == p[k]);
        }
    }
    assert(!text::is_flow_indicator(p[p.len() - 1]) && !emitter::is_control(p[p.len() - 1]));
    lemma_trim_nothing(p);
    if lex::break_at(text, e) {
        let next = lex::blank_lines(text, e + 1);
        assert(lex::after_break(text, e) == e + 1);
        assert(lex::run_end(Run::Blanks, text, e + 1) == e + 1);
        assert(next == (e + 1, 0nat));
        assert(!plain::continues_plain(text, e + 1, flow, indent));
    }
}

// ---------------------------------------------------------------------------
// Quoted scalars
// ---------------------------------------------------------------------------

/// A hex digit is read as what it was written for.
pub proof fn lemma_digit_symbol(d: nat, upper: bool)
    requires
        d < 16,
    ensures
        text::digit_value(text::digit_symbol(d, upper)) == Some(d),
        d < 10 ==> text::is_digit(text::digit_symbol(d, upper)),
{
}

/// The escape of a control character is read as that character.
proof fn lemma_hex_escape(text: Seq<char>, start: int, i: int, c: char)
    requires
        ' ' > c,
        holds(text, i, text::hex_text(c as nat, 2, false)),
    ensures
        text::hex_text(c as nat, 2, false).len() == 2,
        quoted::hex_escape(text, start, i, 2, 0) == Ok::<(char, int), Stop>((c, i + 2)),
{
    let n = c as nat;
    let digits = text::hex_text(n, 2, false);
    reveal_with_fuel(text::hex_text, 3);
    reveal_with_fuel(quoted::hex_escape, 3);
    lemma_digit_symbol(n / 16, false);
    lemma_digit_symbol(n % 16, false);
    assert(digits == seq![
        text::digit_symbol(n / 16, false),
        text::digit_symbol(n % 16, false),
    ]);
    assert(text[i + 0] == digits[0]);
    assert(text[i + 1] == digits[1]);
    assert((n / 16) * 16 + n % 16 == n);
    assert(quoted::hex_escape(text, start, i, 2, 0) == quoted::hex_escape(
        text,
        start,
        i + 1,
        1,
        n / 16,
    ));
    assert(quoted::hex_escape(text, start, i + 1, 1, n / 16) == quoted::hex_escape(
        text,
        start,
        i + 2,
        0,
        n,
    ));
}

/// One character inside double quotes is read back.
proof fn lemma_quoted_char(text: Seq<char>, start: int, i: int, c: char, gathered: Seq<char>)
    requires
        holds(text, i, emitter::escaped_char(c)),
    ensures
        quoted::double_quoted(text, start, i, gathered) == quoted::double_quoted(
            text,
            start,
            i + emitter::escaped_char(c).len(),
            gathered.push(c),
        ),
{
    let e = emitter::escaped_char(c);
    assert(text[i + 0] == e[0]);
    if e.len() > 1 {
        assert(text[i + 1] == e[1]);
    }
    if ' ' > c && c != '\n' && c != '\t' && c != '\r' {
        lemma_holds(text, i, seq!['\\', 'x'], text::hex_text(c as nat, 2, false));
        lemma_hex_escape(text, start, i + 2, c);
        assert(quoted::escape(text, start, i + 1) == Ok::<(char, int), Stop>((c, i + 4)));
    }
}

/// The characters of a double-quoted string up to the `k`th are read back.
proof fn lemma_quoted_prefix(text: Seq<char>, start: int, i: int, s: Seq<char>, k: int)
    requires
        0 <= k <= s.len(),
        holds(text, i, emitter::escaped(s.take(k))),
    ensures
        quoted::double_quoted(text, start, i, Seq::empty()) == quoted::double_quoted(
            text,
            start,
            i + emitter::escaped(s.take(k)).len(),
            s.take(k),
        ),
    decreases k,
{
    if k == 0 {
        assert(s.take(0) == Seq::<char>::empty());
    } else {
        let part = s.take(k);
        assert(part.drop_last() == s.take(k - 1));
        assert(part.last() == s[k - 1]);
        let before = emitter::escaped(s.take(k - 1));
        let last = emitter::escaped_char(s[k - 1]);
        lemma_holds(text, i, before, last);
        lemma_quoted_prefix(text, start, i, s, k - 1);
        lemma_quoted_char(text, start, i + before.len(), s[k - 1], s.take(k - 1));
        assert(s.take(k - 1).push(s[k - 1]) == s.take(k));
    }
}

/// A double-quoted string is read back.
pub proof fn lemma_quoted(text: Seq<char>, i: int, s: Seq<char>)
    requires
        holds(text, i, emitter::quoted_text(s)),
    ensures
        text[i] == '"',
        quoted::double_quoted(text, i, i + 1, Seq::empty()) == Ok::<(Seq<char>, int), Stop>(
            (s, i + emitter::quoted_text(s).len()),
        ),
{
    let body = emitter::escaped(s);
    assert(emitter::quoted_text(s) == seq!['"'] + (body + seq!['"']));
    lemma_holds(text, i, seq!['"'], body + seq!['"']);
    lemma_holds(text, i + 1, body, seq!['"']);
    assert(text[i + 0] == seq!['"'][0]);
    assert(s.take(s.len() as int) == s);
    lemma_quoted_prefix(text, i, i + 1, s, s.len() as int);
    assert(text[i + 1 + body.len() + 0] == seq!['"'][0]);
}

// ---------------------------------------------------------------------------
// What is safe
// ---------------------------------------------------------------------------

/// A string that needs no quotes is safe.
pub proof fn lemma_string_safe(s: Seq<char>)
    requires
        !emitter::needs_quoting(s),
    ensures
        plain_safe(s),
{
}

/// A character of a number.
pub open spec fn is_number_char(c: char) -> bool {
    text::is_digit(c) || c == '+' || c == '-' || c == '.' || c == 'e' || c == 'E'
}

/// A text of number characters is safe, if it does not begin with a lone sign.
proof fn lemma_number_safe(s: Seq<char>)
    requires
        s.len() > 0,
        forall|i: int| 0 <= i < s.len() ==> is_number_char(#[trigger] s[i]),
        s[0] == '-' ==> s.len() >= 2 && (text::is_digit(s[1]) || s[1] == '.'),
        s[0] == '.' ==> s.len() >= 2 && text::is_digit(s[1]),
    ensures
        plain_safe(s),
{
    assert(is_number_char(s[0]));
    assert(is_number_char(s[s.len() - 1]));
    if s.len() > 3 {
        assert(is_number_char(s[3]));
    }
    if emitter::has_pair(s, ':', ' ') {
        let i = choose|i: int| emitter::pair_at(s, i, ':', ' ');
        assert(is_number_char(s[i]));
    }
    if emitter::has_pair(s, ' ', '#') {
        let i = choose|i: int| emitter::pair_at(s, i, ' ', '#');
        assert(is_number_char(s[i]));
    }
    assert forall|i: int| 0 <= i < s.len() implies !text::is_flow_indicator(#[trigger] s[i])
        && !emitter::is_control(s[i]) by {
        assert(is_number_char(s[i]));
    }
}

/// A decimal number is safe.
pub proof fn lemma_decimal_safe(s: Seq<char>)
    requires
        scalar::is_decimal(s),
    ensures
        plain_safe(s),
{
    let a = scalar::sign_end(s, 0);
    let b = scalar::digits_end(s, a);
    let c = scalar::fraction_end(s, b);
    scalar::lemma_digits_end(s, a);
    scalar::lemma_digits_end(s, b + 1);
    let d = scalar::sign_end(s, c + 1);
    scalar::lemma_digits_end(s, d);
    assert forall|i: int| 0 <= i < s.len() implies is_number_char(#[trigger] s[i]) by {
        if a <= i < b {
            assert(text::is_digit(s[i]));
        } else if b + 1 <= i < c {
            assert(text::is_digit(s[i]));
        } else if d <= i {
            assert(text::is_digit(s[i]));
        }
    }
    if s[0] == '-' {
        if a < b {
            assert(text::is_digit(s[1]));
        }
    }
    if s[0] == '.' {
        assert(text::is_digit(s[1]));
    }
    lemma_number_safe(s);
}

/// Decimal digits are digits, and their value is the number.
pub proof fn lemma_decimal_text(n: nat, s: Seq<char>, from: int)
    requires
        0 <= from,
        s.len() == from + text::decimal_text(n).len(),
        forall|k: int|
            0 <= k < text::decimal_text(n).len() ==> s[from + k] == #[trigger] text::decimal_text(
                n,
            )[k],
    ensures
        text::decimal_text(n).len() > 0,
        forall|j: int| from <= j < s.len() ==> text::is_digit(#[trigger] s[j]),
        scalar::digits_value(s, from, s.len() as int, 10) == n,
    decreases n,
{
    let digits = text::decimal_text(n);
    if n < 10 {
        lemma_digit_symbol(n, false);
        assert(s[from + 0] == digits[0]);
        reveal_with_fuel(scalar::digits_value, 2);
        assert forall|j: int| from <= j < s.len() implies text::is_digit(#[trigger] s[j]) by {
            assert(j == from);
        }
    } else {
        let head = text::decimal_text(n / 10);
        let front = s.drop_last();
        assert forall|k: int| 0 <= k < head.len() implies front[from + k] == #[trigger] head[k] by {
            assert(digits[k] == head[k]);
            assert(s[from + k] == digits[k]);
        }
        lemma_decimal_text(n / 10, front, from);
        lemma_digit_symbol(n % 10, false);
        let last = s.len() - 1;
        assert(s[from + head.len()] == digits[head.len() as int]);
        assert(text::digit_value(s[last]) == Some(n % 10));
        lemma_digits_value_front(s, from, last);
        assert forall|j: int| from <= j < s.len() implies text::is_digit(#[trigger] s[j]) by {
            if j < last {
                assert(front[j] == s[j]);
            }
        }
    }
}

/// The value of leading digits does not depend on what follows.
proof fn lemma_digits_value_front(s: Seq<char>, from: int, n: int)
    requires
        0 <= from <= n,
        n == s.len() - 1,
    ensures
        scalar::digits_value(s, from, n, 10) == scalar::digits_value(s.drop_last(), from, n, 10),
{
    lemma_digits_value_agree(s, s.drop_last(), from, n);
}

proof fn lemma_digits_value_agree(s: Seq<char>, t: Seq<char>, from: int, n: int)
    requires
        0 <= from,
        n <= s.len(),
        n <= t.len(),
        forall|j: int| from <= j < n ==> s[j] == t[j],
    ensures
        scalar::digits_value(s, from, n, 10) == scalar::digits_value(t, from, n, 10),
    decreases n - from,
{
    if from < n {
        lemma_digits_value_agree(s, t, from, n - 1);
    }
}

/// An integer is safe, and resolves to itself.
pub proof fn lemma_integer(i: i64, float: u64)
    ensures
        plain_safe(emitter::integer_text(i as int)),
        scalar::by_core(emitter::integer_text(i as int), float) == crate::node::Node::Int(i),
{
    reveal_strlit("-");
    let s = emitter::integer_text(i as int);
    let from = if i < 0 {
        1int
    } else {
        0int
    };
    let n = (if i < 0 {
        -i
    } else {
        i as int
    }) as nat;
    let digits = text::decimal_text(n);
    assert forall|k: int| 0 <= k < digits.len() implies s[from + k] == #[trigger] digits[k] by {}
    lemma_decimal_text(n, s, from);
    assert forall|j: int| 0 <= j < s.len() implies is_number_char(#[trigger] s[j]) by {
        if from <= j {
            assert(text::is_digit(s[j]));
        }
    }
    assert(text::is_digit(s[from]));
    lemma_number_safe(s);
    lemma_core_words(s);
    let numeral = scalar::core_numeral(s);
    if s.len() >= 2 {
        assert(is_number_char(s[1]));
    }
    assert(numeral.from == from && numeral.base == 10 && numeral.negative == (i < 0));
    assert forall|j: int| from <= j < s.len() implies (text::digit_value(#[trigger] s[j]) matches Some(
        d,
    ) && d < 10) by {
        assert(text::is_digit(s[j]));
    }
}

/// A text that begins like a number, with an optional minus sign, is no word.
proof fn lemma_core_words(s: Seq<char>)
    requires
        s.len() > 0,
        text::is_digit(s[0]) || (s.len() > 1 && s[0] == '-' && text::is_digit(s[1])),
    ensures
        !scalar::is_core_word(s),
{
    reveal_strlit("");
    reveal_strlit("~");
    reveal_strlit("null");
    reveal_strlit("Null");
    reveal_strlit("NULL");
    reveal_strlit("true");
    reveal_strlit("True");
    reveal_strlit("TRUE");
    reveal_strlit("false");
    reveal_strlit("False");
    reveal_strlit("FALSE");
    reveal_strlit(".inf");
    reveal_strlit(".Inf");
    reveal_strlit(".INF");
    reveal_strlit("+.inf");
    reveal_strlit("+.Inf");
    reveal_strlit("+.INF");
    reveal_strlit("-.inf");
    reveal_strlit("-.Inf");
    reveal_strlit("-.INF");
    reveal_strlit(".nan");
    reveal_strlit(".NaN");
    reveal_strlit(".NAN");
}

/// The words of the emitter are safe.
pub proof fn lemma_words_safe()
    ensures
        plain_safe("null"@),
        plain_safe("true"@),
        plain_safe("false"@),
        plain_safe(".inf"@),
        plain_safe("-.inf"@),
        plain_safe(".nan"@),
{
    reveal_strlit("null");
    reveal_strlit("true");
    reveal_strlit("false");
    reveal_strlit(".inf");
    reveal_strlit("-.inf");
    reveal_strlit(".nan");
    lemma_word_safe("null"@);
    lemma_word_safe("true"@);
    lemma_word_safe("false"@);
    lemma_word_safe(".inf"@);
    lemma_word_safe("-.inf"@);
    lemma_word_safe(".nan"@);
}

proof fn lemma_word_safe(s: Seq<char>)
    requires
        s.len() > 0,
        safe_start(s),
        !emitter::reads_as_marker(s),
        forall|i: int|
            0 <= i < s.len() ==> ('a' <= #[trigger] s[i] <= 'z' || s[i] == '.' || s[i] == '-'),
    ensures
        plain_safe(s),
{
    assert('a' <= s[0] <= 'z' || s[0] == '.' || s[0] == '-');
    let last = s.len() - 1;
    assert('a' <= s[last] <= 'z' || s[last] == '.' || s[last] == '-');
    if emitter::has_pair(s, ':', ' ') {
        let i = choose|i: int| emitter::pair_at(s, i, ':', ' ');
        assert('a' <= s[i] <= 'z' || s[i] == '.' || s[i] == '-');
    }
    if emitter::has_pair(s, ' ', '#') {
        let i = choose|i: int| emitter::pair_at(s, i, ' ', '#');
        assert('a' <= s[i] <= 'z' || s[i] == '.' || s[i] == '-');
    }
    if s.len() > 3 {
        assert('a' <= s[3] <= 'z' || s[3] == '.' || s[3] == '-');
    }
}

} // verus!
