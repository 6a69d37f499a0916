//! The emitter: owned value tree to YAML text.

use crate::floats::FloatTable;
use crate::meta::ScalarStyle;
use crate::node::Node;
use crate::options::{EmitOptions, Schema};
use crate::scalar;
use crate::scalar::{resolve, INFINITY, NEG_INFINITY};
use crate::text;
use crate::text::{chars_of, decimal_string, flow_char, hex_string, push_repeated};
use crate::value;
use crate::value::{Mapping, Value, ValueData};
use vstd::prelude::*;

verus! {

// ---------------------------------------------------------------------------
// Numbers
// ---------------------------------------------------------------------------

/// An integer in decimal.
pub open spec fn integer_text(i: int) -> Seq<char> {
    if i < 0 {
        "-"@ + text::decimal_text((-i) as nat)
    } else {
        text::decimal_text(i as nat)
    }
}

/// The bits of a number that is neither infinite nor not-a-number.
pub open spec fn is_finite(bits: u64) -> bool {
    bits < INFINITY || 0x8000_0000_0000_0000 <= bits < NEG_INFINITY
}

/// A float so that it never reads as an integer; `shown` is the text of a finite
/// number.
pub open spec fn float_text(bits: u64, shown: Seq<char>) -> Seq<char> {
    if bits == INFINITY {
        ".inf"@
    } else if bits == NEG_INFINITY {
        "-.inf"@
    } else if !is_finite(bits) {
        ".nan"@
    } else if shown.contains('.') || shown.contains('e') || shown.contains('E') {
        shown
    } else {
        shown + ".0"@
    }
}

// ---------------------------------------------------------------------------
// Strings
// ---------------------------------------------------------------------------

/// `a` at `i` and `b` right behind it.
pub open spec fn pair_at(s: Seq<char>, i: int, a: char, b: char) -> bool {
    0 <= i < s.len() - 1 && s[i] == a && s[i + 1] == b
}

/// `a` and right behind it `b` occur in `s`.
pub open spec fn has_pair(s: Seq<char>, a: char, b: char) -> bool {
    exists|i: int| pair_at(s, i, a, b)
}

/// A character that a plain scalar may not begin with.
pub open spec fn is_leading_indicator(c: char) -> bool {
    text::is_flow_indicator(c) || c == '!' || c == '&' || c == '*' || c == '?' || c == '-' || c
        == ':' || c == '#' || c == '|' || c == '>' || c == '@' || c == '`' || c == '"' || c == '\''
        || c == '%'
}

/// An ASCII control character.
pub open spec fn is_control(c: char) -> bool {
    ' ' > c || c == '\u{7f}'
}

/// A plain `s` would be read as a document end marker: three dots, alone or with a
/// space behind them.
pub open spec fn reads_as_marker(s: Seq<char>) -> bool {
    s.len() >= 3 && s[0] == '.' && s[1] == '.' && s[2] == '.' && (s.len() == 3 || s[3] == ' ')
}

/// A string that is not safe as a plain scalar: it would read as another type, or
/// it holds a structural hazard.
pub open spec fn needs_quoting(s: Seq<char>) -> bool {
    ||| s.len() == 0
    ||| reads_as_marker(s)
    ||| scalar::resolved(s, ScalarStyle::Plain, Schema::Core1_2, 0) != Node::Str(s)
    ||| is_leading_indicator(s[0])
    ||| s[0] == ' '
    ||| s.last() == ' '
    ||| s.last() == ':'
    ||| has_pair(s, ':', ' ')
    ||| has_pair(s, ' ', '#')
    ||| exists|i: int| 0 <= i < s.len() && text::is_flow_indicator(#[trigger] s[i])
    ||| exists|i: int| 0 <= i < s.len() && is_control(#[trigger] s[i])
}

/// A character inside double quotes.
pub open spec fn escaped_char(c: char) -> Seq<char> {
    if c == '"' {
        seq!['\\', '"']
    } else if c == '\\' {
        seq!['\\', '\\']
    } else if c == '\n' {
        seq!['\\', 'n']
    } else if c == '\t' {
        seq!['\\', 't']
    } else if c == '\r' {
        seq!['\\', 'r']
    } else if ' ' > c {
        seq!['\\', 'x'] + text::hex_text(c as nat, 2, false)
    } else {
        seq![c]
    }
}

/// The characters of `s` inside double quotes.
pub open spec fn escaped(s: Seq<char>) -> Seq<char>
    decreases s.len(),
{
    if s.len() == 0 {
        Seq::empty()
    } else {
        escaped(s.drop_last()) + escaped_char(s.last())
    }
}

/// `s` in double quotes.
pub open spec fn quoted_text(s: Seq<char>) -> Seq<char> {
    seq!['"'] + escaped(s) + seq!['"']
}

/// A string as a scalar.
pub open spec fn string_text(s: Seq<char>) -> Seq<char> {
    if needs_quoting(s) {
        quoted_text(s)
    } else {
        s
    }
}

// ---------------------------------------------------------------------------
// Values
// ---------------------------------------------------------------------------

/// A value on a single line: scalars plain where that is safe, collections in
/// flow form. `shown` gives the texts of the finite floats.
pub open spec fn flow_text(n: Node, shown: Map<u64, Seq<char>>) -> Seq<char>
    decreases n, 0int,
{
    match n {
        Node::Null => "null"@,
        Node::Bool(b) => if b {
            "true"@
        } else {
            "false"@
        },
        Node::Int(i) => integer_text(i as int),
        Node::Float(bits) => float_text(bits, shown[bits]),
        Node::Str(s) => string_text(s),
        Node::Sequence(items) => seq!['['] + items_text(items, 0, shown) + seq![']'],
        Node::Mapping(entries) => seq!['{'] + entries_text(entries, 0, shown) + seq!['}'],
    }
}

/// What separates the `i`th item from the one before it.
pub open spec fn separator(i: int) -> Seq<char> {
    if i > 0 {
        seq![',', ' ']
    } else {
        Seq::empty()
    }
}

/// The items from `i` on.
pub open spec fn items_text(items: Seq<Node>, i: int, shown: Map<u64, Seq<char>>) -> Seq<char>
    decreases items, items.len() - i,
{
    if 0 <= i < items.len() {
        separator(i) + flow_text(items[i], shown) + items_text(items, i + 1, shown)
    } else {
        Seq::empty()
    }
}

/// The entries from `i` on.
pub open spec fn entries_text(
    entries: Seq<(Node, Node)>,
    i: int,
    shown: Map<u64, Seq<char>>,
) -> Seq<char>
    decreases entries, entries.len() - i,
{
    if 0 <= i < entries.len() {
        separator(i) + flow_text(entries[i].0, shown) + seq![':', ' '] + flow_text(
            entries[i].1,
            shown,
        ) + entries_text(entries, i + 1, shown)
    } else {
        Seq::empty()
    }
}

/// A value as a document.
pub open spec fn document_text(n: Node, shown: Map<u64, Seq<char>>) -> Seq<char> {
    flow_text(n, shown).push('\n')
}

/// Values as a stream of documents, from value `i` on.
pub open spec fn stream_text(values: Seq<Node>, i: int, shown: Map<u64, Seq<char>>) -> Seq<char>
    decreases values.len() - i,
{
    if 0 <= i < values.len() {
        "---\n"@ + document_text(values[i], shown) + stream_text(values, i + 1, shown)
    } else {
        Seq::empty()
    }
}

/// Every finite float of the value has a text.
pub open spec fn is_shown(n: Node, shown: Map<u64, Seq<char>>) -> bool
    decreases n,
{
    match n {
        Node::Float(bits) => is_finite(bits) ==> shown.contains_key(bits),
        Node::Sequence(items) => forall|i: int|
            0 <= i < items.len() ==> is_shown(#[trigger] items[i], shown),
        Node::Mapping(entries) => forall|i: int|
            0 <= i < entries.len() ==> is_shown((#[trigger] entries[i]).0, shown) && is_shown(
                entries[i].1,
                shown,
            ),
        _ => true,
    }
}

/// The parts of a value whose floats have texts are such values.
pub proof fn lemma_shown(n: Node, shown: Map<u64, Seq<char>>, i: int)
    requires
        is_shown(n, shown),
    ensures
        n matches Node::Sequence(items) ==> 0 <= i < items.len() ==> is_shown(items[i], shown),
        n matches Node::Mapping(entries) ==> 0 <= i < entries.len() ==> is_shown(
            entries[i].0,
            shown,
        ) && is_shown(entries[i].1, shown),
{
}

// ---------------------------------------------------------------------------
// Lines
// ---------------------------------------------------------------------------

/// No line break occurs in `s`.
pub open spec fn is_one_line(s: Seq<char>) -> bool {
    forall|i: int| 0 <= i < s.len() ==> !text::is_break(#[trigger] s[i])
}

proof fn lemma_joined_line(a: Seq<char>, b: Seq<char>)
    requires
        is_one_line(a),
        is_one_line(b),
    ensures
        is_one_line(a + b),
{
}

proof fn lemma_hex_line(n: nat, width: nat)
    ensures
        is_one_line(text::hex_text(n, width, false)),
    decreases n, width,
{
    if !(n < 16 && width <= 1) {
        lemma_hex_line(n / 16, (if width > 0 { width - 1 } else { 0 }) as nat);
    }
}

proof fn lemma_decimal_line(n: nat)
    ensures
        is_one_line(text::decimal_text(n)),
    decreases n,
{
    if n >= 10 {
        lemma_decimal_line(n / 10);
    }
}

proof fn lemma_escaped_line(s: Seq<char>)
    ensures
        is_one_line(escaped(s)),
    decreases s.len(),
{
    if s.len() > 0 {
        lemma_escaped_line(s.drop_last());
        lemma_hex_line(s.last() as nat, 2);
    }
}

proof fn lemma_scalar_line(n: Node, shown: Map<u64, Seq<char>>)
    requires
        is_shown(n, shown),
        forall|bits: u64| #[trigger] shown.contains_key(bits) ==> is_one_line(shown[bits]),
        !(n is Sequence),
        !(n is Mapping),
    ensures
        is_one_line(flow_text(n, shown)),
{
    reveal_strlit("null");
    reveal_strlit("true");
    reveal_strlit("false");
    reveal_strlit("-");
    reveal_strlit(".inf");
    reveal_strlit("-.inf");
    reveal_strlit(".nan");
    reveal_strlit(".0");
    match n {
        Node::Int(i) => {
            lemma_decimal_line(i as nat);
            lemma_decimal_line((-i) as nat);
        },
        Node::Str(s) => {
            lemma_escaped_line(s);
            if !needs_quoting(s) {
                assert forall|i: int| 0 <= i < s.len() implies !text::is_break(#[trigger] s[i]) by {
                    assert(!is_control(s[i]));
                }
            }
        },
        _ => {},
    }
}

/// A value is written on one line, whatever it holds: line breaks in strings are
/// escaped. The texts of its floats must be on one line too.
pub proof fn law_values_are_written_on_one_line(n: Node, shown: Map<u64, Seq<char>>)
    requires
        is_shown(n, shown),
        forall|bits: u64| #[trigger] shown.contains_key(bits) ==> is_one_line(shown[bits]),
    ensures
        is_one_line(flow_text(n, shown)),
    decreases n, 0int,
{
    match n {
        Node::Sequence(items) => {
            assert forall|i: int| 0 <= i < items.len() implies is_shown(#[trigger] items[i], shown) by {
                lemma_shown(n, shown, i);
            }
            lemma_items_line(items, 0, shown);
        },
        Node::Mapping(entries) => {
            assert forall|i: int| 0 <= i < entries.len() implies is_shown(
                (#[trigger] entries[i]).0,
                shown,
            ) && is_shown(entries[i].1, shown) by {
                lemma_shown(n, shown, i);
            }
            lemma_entries_line(entries, 0, shown);
        },
        _ => {
            lemma_scalar_line(n, shown);
        },
    }
}

proof fn lemma_items_line(items: Seq<Node>, i: int, shown: Map<u64, Seq<char>>)
    requires
        forall|k: int| 0 <= k < items.len() ==> is_shown(#[trigger] items[k], shown),
        forall|bits: u64| #[trigger] shown.contains_key(bits) ==> is_one_line(shown[bits]),
    ensures
        is_one_line(items_text(items, i, shown)),
    decreases items, items.len() - i,
{
    if 0 <= i < items.len() {
        law_values_are_written_on_one_line(items[i], shown);
        lemma_items_line(items, i + 1, shown);
        lemma_joined_line(separator(i), flow_text(items[i], shown));
    }
}

proof fn lemma_entries_line(entries: Seq<(Node, Node)>, i: int, shown: Map<u64, Seq<char>>)
    requires
        forall|k: int|
            0 <= k < entries.len() ==> is_shown((#[trigger] entries[k]).0, shown) && is_shown(
                entries[k].1,
                shown,
            ),
        forall|bits: u64| #[trigger] shown.contains_key(bits) ==> is_one_line(shown[bits]),
    ensures
        is_one_line(entries_text(entries, i, shown)),
    decreases entries, entries.len() - i,
{
    if 0 <= i < entries.len() {
        let (key, value) = entries[i];
        law_values_are_written_on_one_line(entries[i].0, shown);
        law_values_are_written_on_one_line(entries[i].1, shown);
        lemma_entries_line(entries, i + 1, shown);
        let front = separator(i) + flow_text(key, shown);
        lemma_joined_line(separator(i), flow_text(key, shown));
        lemma_joined_line(front, seq![':', ' ']);
        lemma_joined_line(front + seq![':', ' '], flow_text(value, shown));
    }
}

// ---------------------------------------------------------------------------
// Emitting
// ---------------------------------------------------------------------------

/// Indentation for `level` nesting levels, `options.indent` spaces each.
fn pad(level: usize, options: &EmitOptions) -> (s: String)
    requires
        level * options.indent <= usize::MAX,
    ensures
        s@ == text::repeated(' ', (level * options.indent) as nat),
{
    let mut s = String::new();
    push_repeated(&mut s, ' ', level * options.indent);
    assert(s@ == text::repeated(' ', (level * options.indent) as nat));
    s
}

fn integer_string(i: i64) -> (s: String)
    ensures
        s@ == integer_text(i as int),
{
    if i >= 0 {
        return decimal_string(i as u64);
    }
    let mut s = "-".to_string();
    let magnitude: u64 = (-(i as i128)) as u64;
    s.append(decimal_string(magnitude).as_str());
    s
}

fn finite(bits: u64) -> (b: bool)
    ensures
        b == is_finite(bits),
{
    bits < INFINITY || (0x8000_0000_0000_0000 <= bits && bits < NEG_INFINITY)
}

/// Whether a number's text has a dot or an exponent.
fn shows_point(shown: &str) -> (b: bool)
    ensures
        b == (shown@.contains('.') || shown@.contains('e') || shown@.contains('E')),
{
    let chars = chars_of(shown);
    let mut i: usize = 0;
    while i < chars.len()
        invariant
            i <= chars.len(),
            chars@ == shown@,
            forall|j: int|
                0 <= j < i ==> #[trigger] chars@[j] != '.' && chars@[j] != 'e' && chars@[j] != 'E',
        decreases chars.len() - i,
    {
        let c = chars[i];
        if c == '.' || c == 'e' || c == 'E' {
            assert(shown@[i as int] == c);
            return true;
        }
        i += 1;
    }
    false
}

/// Formats a float so it always re-parses as a float (never an int). `shown` is
/// the text of a finite number.
pub fn format_float(bits: u64, shown: &str) -> (s: String)
    ensures
        s@ == float_text(bits, shown@),
{
    if bits == INFINITY {
        return ".inf".to_string();
    }
    if bits == NEG_INFINITY {
        return "-.inf".to_string();
    }
    if !finite(bits) {
        return ".nan".to_string();
    }
    let mut s = shown.to_string();
    if !shows_point(shown) {
        s.append(".0");
    }
    s
}

fn leading_indicator(c: char) -> (b: bool)
    ensures
        b == is_leading_indicator(c),
{
    flow_char(c) || matches!(
        c,
        '!' | '&' | '*' | '?' | '-' | ':' | '#' | '|' | '>' | '@' | '`' | '"' | '\'' | '%'
    )
}

/// Whether a string would read as something else if it were a plain scalar.
fn changes_type(s: &str) -> (b: bool)
    ensures
        b == (scalar::resolved(s@, ScalarStyle::Plain, Schema::Core1_2, 0) != Node::Str(s@)),
{
    proof {
        scalar::law_scalars_resolve_to_scalars(s@, ScalarStyle::Plain, Schema::Core1_2, 0);
    }
    !matches!(resolve(s, ScalarStyle::Plain, Schema::Core1_2, 0), ValueData::String(_))
}

/// True when a string cannot be safely emitted as a plain scalar: either it
/// would change type on reparse, or it contains a structural hazard.
pub fn string_needs_quoting(s: &str) -> (b: bool)
    ensures
        b == needs_quoting(s@),
{
    let chars = chars_of(s);
    let n: usize = chars.len();
    if n == 0 {
        return true;
    }
    if changes_type(s) {
        return true;
    }
    if n >= 3 && chars[0] == '.' && chars[1] == '.' && chars[2] == '.' && (n == 3 || chars[3]
        == ' ') {
        return true;
    }
    let first = chars[0];
    let last = chars[n - 1];
    if leading_indicator(first) || first == ' ' || last == ' ' || last == ':' {
        return true;
    }
    let mut i: usize = 0;
    while i < n
        invariant
            i <= n,
            n == chars.len(),
            chars@ == s@,
            forall|j: int| 0 <= j < i ==> !text::is_flow_indicator(#[trigger] s@[j]),
            forall|j: int| 0 <= j < i ==> !is_control(#[trigger] s@[j]),
            forall|j: int| 0 <= j < i ==> !#[trigger] pair_at(s@, j, ':', ' '),
            forall|j: int| 0 <= j < i ==> !#[trigger] pair_at(s@, j, ' ', '#'),
        decreases n - i,
    {
        let c = chars[i];
        if flow_char(c) || ' ' > c || c == '\u{7f}' {
            assert(s@[i as int] == c);
            return true;
        }
        if i + 1 < n {
            let next = chars[i + 1];
            if (c == ':' && next == ' ') || (c == ' ' && next == '#') {
                assert(pair_at(s@, i as int, ':', ' ') || pair_at(s@, i as int, ' ', '#'));
                return true;
            }
        }
        i += 1;
    }
    false
}

/// Appends a character as it stands inside double quotes.
fn push_escaped(out: &mut String, c: char)
    ensures
        final(out)@ == old(out)@ + escaped_char(c),
{
    match c {
        '"' => {
            out.push('\\');
            out.push('"');
        },
        '\\' => {
            out.push('\\');
            out.push('\\');
        },
        '\n' => {
            out.push('\\');
            out.push('n');
        },
        '\t' => {
            out.push('\\');
            out.push('t');
        },
        '\r' => {
            out.push('\\');
            out.push('r');
        },
        _ => {
            if ' ' > c {
                out.push('\\');
                out.push('x');
                out.append(hex_string(c as u32, 2, false).as_str());
            } else {
                out.push(c);
            }
        },
    }
    assert(out@ == old(out)@ + escaped_char(c));
}

/// Double-quotes a string, escaping quotes, backslashes, and control chars.
pub fn double_quote(s: &str) -> (q: String)
    ensures
        q@ == quoted_text(s@),
{
    let chars = chars_of(s);
    let mut out = String::new();
    out.push('"');
    let mut i: usize = 0;
    assert(escaped(s@.take(0)) == Seq::<char>::empty());
    while i < chars.len()
        invariant
            i <= chars.len(),
            chars@ == s@,
            out@ == seq!['"'] + escaped(s@.take(i as int)),
        decreases chars.len() - i,
    {
        proof {
            assert(s@.take(i + 1).drop_last() == s@.take(i as int));
        }
        push_escaped(&mut out, chars[i]);
        i += 1;
    }
    assert(s@.take(i as int) == s@);
    out.push('"');
    assert(out@ == quoted_text(s@));
    out
}

/// Appends a value on a single line.
fn push_flow(value: &Value, floats: &FloatTable, out: &mut String)
    requires
        is_shown(value@, floats@.texts),
    ensures
        final(out)@ == old(out)@ + flow_text(value@, floats@.texts),
    decreases value@,
{
    match value.data() {
        ValueData::Null => out.append("null"),
        ValueData::Bool(b) => out.append(if *b {
            "true"
        } else {
            "false"
        }),
        ValueData::Int(i) => out.append(integer_string(*i).as_str()),
        ValueData::Float(bits) => {
            match floats.text_of(*bits) {
                Some(shown) => out.append(format_float(*bits, shown.as_str()).as_str()),
                None => out.append(format_float(*bits, "").as_str()),
            }
        },
        ValueData::String(s) => {
            if string_needs_quoting(s.as_str()) {
                out.append(double_quote(s.as_str()).as_str());
            } else {
                out.append(s.as_str());
            }
        },
        ValueData::Sequence(items) => {
            proof {
                value::lemma_sequence(*items);
            }
            let ghost nodes = value::nodes(items@);
            let ghost shown = floats@.texts;
            out.push('[');
            let ghost begun = out@;
            let mut i: usize = 0;
            while i < items.len()
                invariant
                    i <= items.len(),
                    nodes == value::nodes(items@),
                    value@ == Node::Sequence(nodes),
                    shown == floats@.texts,
                    is_shown(value@, shown),
                    out@ + items_text(nodes, i as int, shown) == begun + items_text(nodes, 0, shown),
                decreases items.len() - i,
            {
                let ghost had = out@;
                proof {
                    value::lemma_item_smaller(value@, i as int);
                    assert(is_shown(nodes[i as int], shown));
                }
                if i > 0 {
                    out.append(", ");
                }
                proof {
                    reveal_strlit(", ");
                    assert(out@ == had + separator(i as int));
                }
                push_flow(&items[i], floats, out);
                proof {
                    let rest = items_text(nodes, i + 1, shown);
                    let here = flow_text(nodes[i as int], shown);
                    assert(out@ + rest == had + (separator(i as int) + here + rest));
                }
                i += 1;
            }
            out.push(']');
            proof {
                assert(begun == old(out)@ + seq!['[']);
                assert(out@ == old(out)@ + flow_text(value@, shown));
            }
        },
        ValueData::Mapping(map) => {
            let pairs = map.iter();
            let ghost shown = floats@.texts;
            let ghost entries = map@;
            out.push('{');
            let ghost begun = out@;
            let mut i: usize = 0;
            while i < pairs.len()
                invariant
                    i <= pairs.len(),
                    entries == map@,
                    value@ == Node::Mapping(entries),
                    value::reads(pairs@, entries),
                    shown == floats@.texts,
                    is_shown(value@, shown),
                    out@ + entries_text(entries, i as int, shown) == begun + entries_text(
                        entries,
                        0,
                        shown,
                    ),
                decreases pairs.len() - i,
            {
                let ghost had = out@;
                proof {
                    value::lemma_entries_smaller(value@);
                    value::lemma_entry_smaller(entries, i as int);
                    assert(entries[i as int] == (pairs@[i as int].0@, pairs@[i as int].1@));
                }
                if i > 0 {
                    out.append(", ");
                }
                proof {
                    reveal_strlit(", ");
                    assert(out@ == had + separator(i as int));
                }
                push_flow(pairs[i].0, floats, out);
                let ghost keyed = out@;
                out.append(": ");
                proof {
                    reveal_strlit(": ");
                    assert(out@ == keyed + seq![':', ' ']);
                }
                push_flow(pairs[i].1, floats, out);
                proof {
                    let rest = entries_text(entries, i + 1, shown);
                    let key = flow_text(entries[i as int].0, shown);
                    let here = flow_text(entries[i as int].1, shown);
                    assert(out@ + rest == had + (separator(i as int) + key + seq![':', ' '] + here
                        + rest));
                }
                i += 1;
            }
            out.push('}');
            proof {
                assert(begun == old(out)@ + seq!['{']);
                assert(out@ == old(out)@ + flow_text(value@, shown));
            }
        },
    }
}

/// Whether every finite float of a value has a text.
pub fn all_shown(value: &Value, floats: &FloatTable) -> (b: bool)
    ensures
        b == is_shown(value@, floats@.texts),
    decreases value@,
{
    match value.data() {
        ValueData::Float(bits) => !finite(*bits) || floats.text_of(*bits).is_some(),
        ValueData::Sequence(items) => {
            proof {
                value::lemma_sequence(*items);
            }
            let ghost nodes = value::nodes(items@);
            let mut i: usize = 0;
            while i < items.len()
                invariant
                    i <= items.len(),
                    nodes == value::nodes(items@),
                    value@ == Node::Sequence(nodes),
                    forall|j: int| 0 <= j < i ==> is_shown(#[trigger] nodes[j], floats@.texts),
                decreases items.len() - i,
            {
                proof {
                    value::lemma_item_smaller(value@, i as int);
                }
                if !all_shown(&items[i], floats) {
                    assert(!is_shown(nodes[i as int], floats@.texts));
                    return false;
                }
                i += 1;
            }
            true
        },
        ValueData::Mapping(map) => {
            let pairs = map.iter();
            let ghost entries = map@;
            let mut i: usize = 0;
            while i < pairs.len()
                invariant
                    i <= pairs.len(),
                    entries == map@,
                    value@ == Node::Mapping(entries),
                    value::reads(pairs@, entries),
                    forall|j: int|
                        0 <= j < i ==> is_shown((#[trigger] entries[j]).0, floats@.texts)
                            && is_shown(entries[j].1, floats@.texts),
                decreases pairs.len() - i,
            {
                proof {
                    value::lemma_entries_smaller(value@);
                    value::lemma_entry_smaller(entries, i as int);
                    assert(entries[i as int] == (pairs@[i as int].0@, pairs@[i as int].1@));
                }
                if !all_shown(pairs[i].0, floats) || !all_shown(pairs[i].1, floats) {
                    return false;
                }
                i += 1;
            }
            true
        },
        _ => true,
    }
}

/// The finite floats of a value: what a [`FloatTable`] has to know before
/// [`emit`] writes the value.
pub fn finite_floats(value: &Value) -> (bits: Vec<u64>)
    ensures
        forall|shown: Map<u64, Seq<char>>|
            #![trigger is_shown(value@, shown)]
            is_shown(value@, shown) <==> all_known(bits@, shown),
{
    let mut bits: Vec<u64> = Vec::new();
    push_finite_floats(value, &mut bits);
    bits
}

/// Every one of the numbers has a text.
pub open spec fn all_known(bits: Seq<u64>, shown: Map<u64, Seq<char>>) -> bool {
    forall|i: int| 0 <= i < bits.len() ==> shown.contains_key(#[trigger] bits[i])
}

/// More numbers are known if both parts are.
proof fn lemma_all_known(a: Seq<u64>, b: Seq<u64>)
    ensures
        forall|shown: Map<u64, Seq<char>>|
            #![trigger all_known(a + b, shown)]
            all_known(a + b, shown) <==> all_known(a, shown) && all_known(b, shown),
{
    assert forall|shown: Map<u64, Seq<char>>| #[trigger] all_known(a + b, shown) implies all_known(
        a,
        shown,
    ) && all_known(b, shown) by {
        assert forall|i: int| 0 <= i < a.len() implies shown.contains_key(#[trigger] a[i]) by {
            assert((a + b)[i] == a[i]);
        }
        assert forall|i: int| 0 <= i < b.len() implies shown.contains_key(#[trigger] b[i]) by {
            assert((a + b)[a.len() + i] == b[i]);
        }
    }
}

/// Adds the finite floats of a value.
fn push_finite_floats(value: &Value, bits: &mut Vec<u64>)
    ensures
        forall|shown: Map<u64, Seq<char>>|
            #![trigger all_known(final(bits)@, shown)]
            #![trigger is_shown(value@, shown)]
            all_known(final(bits)@, shown) <==> all_known(old(bits)@, shown) && is_shown(
                value@,
                shown,
            ),
    decreases value@,
{
    match value.data() {
        ValueData::Float(b) => {
            if finite(*b) {
                bits.push(*b);
                proof {
                    lemma_all_known(old(bits)@, seq![*b]);
                    assert(bits@ == old(bits)@ + seq![*b]);
                    assert forall|shown: Map<u64, Seq<char>>| #[trigger] all_known(bits@, shown)
                        <==> all_known(old(bits)@, shown) && is_shown(value@, shown) by {
                        assert(all_known(old(bits)@ + seq![*b], shown) <==> all_known(
                            old(bits)@,
                            shown,
                        ) && all_known(seq![*b], shown));
                        assert(seq![*b][0] == *b);
                    }
                }
            }
        },
        ValueData::Sequence(items) => {
            proof {
                value::lemma_sequence(*items);
            }
            let ghost nodes = value::nodes(items@);
            let mut i: usize = 0;
            while i < items.len()
                invariant
                    i <= items.len(),
                    nodes == value::nodes(items@),
                    value@ == Node::Sequence(nodes),
                    forall|shown: Map<u64, Seq<char>>|
                        #![trigger all_known(bits@, shown)]
                        all_known(bits@, shown) <==> all_known(old(bits)@, shown) && (forall|
                            j: int,
                        |
                            0 <= j < i ==> is_shown(#[trigger] nodes[j], shown)),
                decreases items.len() - i,
            {
                let ghost had = bits@;
                proof {
                    value::lemma_item_smaller(value@, i as int);
                }
                push_finite_floats(&items[i], bits);
                proof {
                    assert forall|shown: Map<u64, Seq<char>>| #[trigger] all_known(bits@, shown)
                        <==> all_known(old(bits)@, shown) && (forall|j: int|
                        0 <= j < i + 1 ==> is_shown(#[trigger] nodes[j], shown)) by {
                        assert(all_known(had, shown) || !all_known(had, shown));
                        assert(nodes[i as int] == items@[i as int]@);
                    }
                }
                i += 1;
            }
            proof {
                assert forall|shown: Map<u64, Seq<char>>| #[trigger] all_known(bits@, shown)
                    <==> all_known(old(bits)@, shown) && is_shown(value@, shown) by {
                    if is_shown(value@, shown) {
                        assert forall|j: int| 0 <= j < i implies is_shown(
                            #[trigger] nodes[j],
                            shown,
                        ) by {
                            lemma_shown(value@, shown, j);
                        }
                    }
                }
            }
        },
        ValueData::Mapping(map) => {
            let pairs = map.iter();
            let ghost entries = map@;
            let mut i: usize = 0;
            while i < pairs.len()
                invariant
                    i <= pairs.len(),
                    entries == map@,
                    value@ == Node::Mapping(entries),
                    value::reads(pairs@, entries),
                    forall|shown: Map<u64, Seq<char>>|
                        #![trigger all_known(bits@, shown)]
                        all_known(bits@, shown) <==> all_known(old(bits)@, shown) && (forall|
                            j: int,
                        |
                            0 <= j < i ==> is_shown((#[trigger] entries[j]).0, shown) && is_shown(
                                entries[j].1,
                                shown,
                            )),
                decreases pairs.len() - i,
            {
                let ghost had = bits@;
                proof {
                    value::lemma_entries_smaller(value@);
                    value::lemma_entry_smaller(entries, i as int);
                    assert(entries[i as int] == (pairs@[i as int].0@, pairs@[i as int].1@));
                }
                push_finite_floats(pairs[i].0, bits);
                let ghost between = bits@;
                push_finite_floats(pairs[i].1, bits);
                proof {
                    assert forall|shown: Map<u64, Seq<char>>| #[trigger] all_known(bits@, shown)
                        <==> all_known(old(bits)@, shown) && (forall|j: int|
                        0 <= j < i + 1 ==> is_shown((#[trigger] entries[j]).0, shown) && is_shown(
                            entries[j].1,
                            shown,
                        )) by {
                        assert(all_known(had, shown) || !all_known(had, shown));
                        assert(all_known(between, shown) || !all_known(between, shown));
                        assert(entries[i as int] == (pairs@[i as int].0@, pairs@[i as int].1@));
                    }
                }
                i += 1;
            }
            proof {
                assert forall|shown: Map<u64, Seq<char>>| #[trigger] all_known(bits@, shown)
                    <==> all_known(old(bits)@, shown) && is_shown(value@, shown) by {
                    if is_shown(value@, shown) {
                        assert forall|j: int| 0 <= j < i implies is_shown(
                            (#[trigger] entries[j]).0,
                            shown,
                        ) && is_shown(entries[j].1, shown) by {
                            lemma_shown(value@, shown, j);
                        }
                    }
                }
            }
        },
        _ => {},
    }
}

/// Renders a single value as a YAML document (always ends with a newline).
pub fn emit(value: &Value, options: &EmitOptions, floats: &FloatTable) -> (out: String)
    requires
        is_shown(value@, floats@.texts),
    ensures
        out@ == document_text(value@, floats@.texts),
{
    let mut out = String::new();
    emit_block_value(value, 0, options, floats, &mut out);
    assert(out@ == document_text(value@, floats@.texts));
    out
}

/// Emits a value on a line of its own at indentation `level`.
fn emit_block_value(
    value: &Value,
    level: usize,
    options: &EmitOptions,
    floats: &FloatTable,
    out: &mut String,
)
    requires
        is_shown(value@, floats@.texts),
        level * options.indent <= usize::MAX,
    ensures
        final(out)@ == old(out)@ + text::repeated(' ', (level * options.indent) as nat)
            + document_text(value@, floats@.texts),
{
    out.append(pad(level, options).as_str());
    push_flow(value, floats, out);
    out.push('\n');
    assert(out@ == old(out)@ + text::repeated(' ', (level * options.indent) as nat)
        + document_text(value@, floats@.texts));
}

/// Renders values as a stream of documents, each after a `---` line.
pub fn emit_documents(values: &[Value], options: &EmitOptions, floats: &FloatTable) -> (out: String)
    requires
        forall|i: int| 0 <= i < values@.len() ==> is_shown((#[trigger] values@[i])@, floats@.texts),
    ensures
        out@ == stream_text(value::nodes(values@), 0, floats@.texts),
{
    let ghost nodes = value::nodes(values@);
    let ghost shown = floats@.texts;
    let mut out = String::new();
    let mut i: usize = 0;
    assert(out@ + stream_text(nodes, 0, shown) == stream_text(nodes, 0, shown));
    while i < values.len()
        invariant
            i <= values.len(),
            nodes == value::nodes(values@),
            shown == floats@.texts,
            forall|i: int| 0 <= i < values@.len() ==> is_shown((#[trigger] values@[i])@, shown),
            out@ + stream_text(nodes, i as int, shown) == stream_text(nodes, 0, shown),
        decreases values.len() - i,
    {
        let ghost had = out@;
        out.append("---\n");
        let document = emit(&values[i], options, floats);
        out.append(document.as_str());
        proof {
            let rest = stream_text(nodes, i + 1, shown);
            assert(out@ + rest == had + ("---\n"@ + document@ + rest));
        }
        i += 1;
    }
    assert(out@ + stream_text(nodes, i as int, shown) == out@);
    out
}

} // verus!
