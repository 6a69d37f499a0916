//! What is written for a value, told from the value's parts.

use crate::emitter;
use crate::node::Node;
use crate::options::Schema;
use crate::resolution;
use crate::resolution::Decimal;
use crate::roundtrip::leaf;
use crate::text;
use vstd::prelude::*;

verus! {

// ---------------------------------------------------------------------------
// Floats
// ---------------------------------------------------------------------------

/// The bits of a float that is a number: its exponent is not the highest.
pub open spec fn is_number(bits: u64) -> bool {
    bits % 0x8000_0000_0000_0000 < 0x7ff0_0000_0000_0000
}

/// A point or an exponent is in the text.
pub open spec fn is_pointed(s: Seq<char>) -> bool {
    exists|i: int| 0 <= i < s.len() && (#[trigger] s[i] == '.' || s[i] == 'e' || s[i] == 'E')
}

/// The text of a number is kept: it is written as it is given where it has a point or an
/// exponent, and with `.0` behind it otherwise. What is no number has a word of its own.
pub proof fn law_number_texts_are_kept(bits: u64, shown: Seq<char>)
    ensures
        is_number(bits) ==> shown.is_prefix_of(emitter::float_text(bits, shown)),
        is_number(bits) && is_pointed(shown) ==> emitter::float_text(bits, shown) == shown,
        is_number(bits) && !is_pointed(shown) ==> emitter::float_text(bits, shown) == shown + seq![
            '.',
            '0',
        ],
        bits == 0x7ff0_0000_0000_0000 ==> emitter::float_text(bits, shown) == seq![
            '.',
            'i',
            'n',
            'f',
        ],
        bits == 0xfff0_0000_0000_0000 ==> emitter::float_text(bits, shown) == seq![
            '-',
            '.',
            'i',
            'n',
            'f',
        ],
        !is_number(bits) && bits % 0x8000_0000_0000_0000 != 0x7ff0_0000_0000_0000
            ==> emitter::float_text(bits, shown) == seq!['.', 'n', 'a', 'n'],
{
    reveal_strlit(".0");
    reveal_strlit(".inf");
    reveal_strlit("-.inf");
    reveal_strlit(".nan");
    assert(".inf"@ == seq!['.', 'i', 'n', 'f']);
    assert("-.inf"@ == seq!['-', '.', 'i', 'n', 'f']);
    assert(".nan"@ == seq!['.', 'n', 'a', 'n']);
    assert(".0"@ == seq!['.', '0']);
    assert(is_number(bits) == emitter::is_finite(bits));
    if is_pointed(shown) {
        let i = choose|i: int|
            0 <= i < shown.len() && (#[trigger] shown[i] == '.' || shown[i] == 'e' || shown[i]
                == 'E');
        assert(shown.contains(shown[i]));
    } else {
        if shown.contains('.') || shown.contains('e') || shown.contains('E') {
            let i = choose|i: int|
                0 <= i < shown.len() && (shown[i] == '.' || shown[i] == 'e' || shown[i] == 'E');
            assert(is_pointed(shown));
        }
    }
}

/// A decimal number has a point or an exponent exactly where its parts say so.
proof fn lemma_pointed(d: Decimal)
    requires
        resolution::is_written(d),
    ensures
        is_pointed(resolution::decimal_text(d)) <==> (d.fraction is Some || d.exponent is Some),
{
    let s = resolution::decimal_text(d);
    let a = d.sign.len() as int;
    let b = a + d.whole.len();
    let c = b + resolution::fraction_text(d).len();
    if d.fraction is Some {
        assert(s[b] == resolution::fraction_text(d)[0]);
    } else if d.exponent is Some {
        assert(s[c] == resolution::exponent_text(d)[0]);
    } else if is_pointed(s) {
        let i = choose|i: int|
            0 <= i < s.len() && (#[trigger] s[i] == '.' || s[i] == 'e' || s[i] == 'E');
        if i < a {
            assert(s[i] == d.sign[i]);
        } else {
            assert(s[i] == d.whole[i - a]);
            assert(resolution::symbol(d.whole[i - a]) < 10);
        }
    }
}

/// The number written with a point or an exponent: what is written for it.
pub open spec fn with_point(d: Decimal) -> Decimal {
    if d.fraction is Some || d.exponent is Some {
        d
    } else {
        Decimal { fraction: Some(seq!['0']), ..d }
    }
}

/// Whatever decimal text a number is given, what is written for it is read as a float, and
/// never as an integer: it has the same parts, with the fraction `.0` where the given text
/// has neither a point nor an exponent.
pub proof fn law_numbers_are_read_as_floats(bits: u64, d: Decimal, float: u64)
    requires
        is_number(bits),
        resolution::is_written(d),
    ensures
        emitter::float_text(bits, resolution::decimal_text(d)) == resolution::decimal_text(
            with_point(d),
        ),
        resolution::is_written(with_point(d)),
        resolution::plain(
            emitter::float_text(bits, resolution::decimal_text(d)),
            Schema::Core1_2,
            float,
        ) == Node::Float(float),
{
    let s = resolution::decimal_text(d);
    law_number_texts_are_kept(bits, s);
    lemma_pointed(d);
    let w = with_point(d);
    if d.fraction is None && d.exponent is None {
        assert(resolution::fraction_text(w) == seq!['.', '0']);
        assert(resolution::decimal_text(w) == s + seq!['.', '0']);
        assert(seq!['0'][0] == '0');
        assert(resolution::are_digits(seq!['0'], 10));
    }
    resolution::law_decimals_are_floats(w, float);
}

/// Which number a decimal text writes: a point and a zero behind whole digits change
/// nothing.
pub open spec fn reads_decimals(reads: spec_fn(Seq<char>) -> u64) -> bool {
    forall|d: Decimal|
        #![trigger resolution::decimal_text(d)]
        resolution::is_written(d) ==> reads(resolution::decimal_text(with_point(d))) == reads(
            resolution::decimal_text(d),
        )
}

/// Where the given text of a number stands for it, so does what is written.
pub proof fn law_written_numbers_stand_for_themselves(
    bits: u64,
    d: Decimal,
    reads: spec_fn(Seq<char>) -> u64,
)
    requires
        is_number(bits),
        resolution::is_written(d),
        reads_decimals(reads),
        reads(resolution::decimal_text(d)) == bits,
    ensures
        reads(emitter::float_text(bits, resolution::decimal_text(d))) == bits,
{
    law_numbers_are_read_as_floats(bits, d, 0);
}

// ---------------------------------------------------------------------------
// Integers and words
// ---------------------------------------------------------------------------

proof fn lemma_decimal(n: nat)
    ensures
        ({
            let ds = text::decimal_text(n);
            &&& ds.len() > 0
            &&& resolution::are_digits(ds, 10)
            &&& resolution::number(ds, 10) == n
            &&& ds[0] == '0' <==> n == 0
        }),
    decreases n,
{
    let ds = text::decimal_text(n);
    leaf::lemma_digit_symbol(n % 10, false);
    let c = text::digit_symbol(n % 10, false);
    assert(text::digit_value(c) == Some(n % 10));
    assert(text::is_digit(c));
    assert(resolution::symbol(c) == n % 10);
    if n < 10 {
        assert(ds == seq![c]);
        assert(ds.drop_last() == Seq::<char>::empty());
        assert(resolution::number(ds.drop_last(), 10) == 0);
    } else {
        let front = text::decimal_text(n / 10);
        lemma_decimal(n / 10);
        assert(ds == front.push(c));
        assert(ds.drop_last() == front);
        assert(ds[0] == front[0]);
        assert forall|i: int| 0 <= i < ds.len() implies resolution::symbol(#[trigger] ds[i]) < 10 by {
            if i < front.len() {
                assert(ds[i] == front[i]);
            }
        }
    }
}

/// An integer is written with its decimal digits, without needless zeros, and with a sign
/// only where it is negative.
pub proof fn law_integers_are_written_in_decimal(i: i64, shown: Map<u64, Seq<char>>) -> (ds: Seq<
    char,
>)
    ensures
        ds.len() > 0,
        resolution::are_digits(ds, 10),
        resolution::number(ds, 10) == if i < 0 {
            -i
        } else {
            i as int
        },
        ds[0] == '0' ==> i == 0 && ds.len() == 1,
        emitter::flow_text(Node::Int(i), shown) == if i < 0 {
            seq!['-'] + ds
        } else {
            ds
        },
{
    reveal_strlit("-");
    assert("-"@ == seq!['-']);
    let n = (if i < 0 {
        -i
    } else {
        i as int
    }) as nat;
    lemma_decimal(n);
    text::decimal_text(n)
}

/// Null and the booleans are written in small letters.
pub proof fn law_words_are_written(shown: Map<u64, Seq<char>>)
    ensures
        emitter::flow_text(Node::Null, shown) == seq!['n', 'u', 'l', 'l'],
        emitter::flow_text(Node::Bool(true), shown) == seq!['t', 'r', 'u', 'e'],
        emitter::flow_text(Node::Bool(false), shown) == seq!['f', 'a', 'l', 's', 'e'],
{
    reveal_strlit("null");
    reveal_strlit("true");
    reveal_strlit("false");
    assert("null"@ == seq!['n', 'u', 'l', 'l']);
    assert("true"@ == seq!['t', 'r', 'u', 'e']);
    assert("false"@ == seq!['f', 'a', 'l', 's', 'e']);
}

// ---------------------------------------------------------------------------
// Strings
// ---------------------------------------------------------------------------

/// A character that no plain scalar of the emitter begins with.
pub open spec fn begins_badly(c: char) -> bool {
    ||| c == ',' || c == '[' || c == ']' || c == '{' || c == '}'
    ||| c == '!' || c == '&' || c == '*' || c == '?' || c == '-' || c == ':'
    ||| c == '#' || c == '|' || c == '>' || c == '@' || c == '`' || c == '"' || c == '\'' || c
        == '%' || c == ' '
}

/// A character that no plain scalar of the emitter holds.
pub open spec fn is_bad(c: char) -> bool {
    c == ',' || c == '[' || c == ']' || c == '{' || c == '}' || ' ' > c || c == '\u{7f}'
}

/// The string is written without quotes: it is not empty, no other type is read from it, it
/// begins and ends well, it holds no `: ` and no ` #`, it is no `...` marker, and none of
/// its characters is bad.
pub open spec fn is_written_bare(s: Seq<char>) -> bool {
    &&& s.len() > 0
    &&& resolution::plain(s, Schema::Core1_2, 0) == Node::Str(s)
    &&& !begins_badly(s[0])
    &&& s[s.len() - 1] != ' '
    &&& s[s.len() - 1] != ':'
    &&& forall|i: int| 0 <= i < s.len() ==> !is_bad(#[trigger] s[i])
    &&& forall|i: int| 0 <= i < s.len() - 1 && #[trigger] s[i] == ':' ==> s[i + 1] != ' '
    &&& forall|i: int| 0 <= i < s.len() - 1 && #[trigger] s[i] == ' ' ==> s[i + 1] != '#'
    &&& !(s.len() >= 3 && s[0] == '.' && s[1] == '.' && s[2] == '.' && (s.len() == 3 || s[3]
        == ' '))
}

/// A string is written as it is exactly where that is safe, and in double quotes
/// otherwise.
pub proof fn law_strings_are_quoted_where_needed(s: Seq<char>, shown: Map<u64, Seq<char>>)
    ensures
        emitter::flow_text(Node::Str(s), shown) == if is_written_bare(s) {
            s
        } else {
            emitter::quoted_text(s)
        },
        is_written_bare(s) <==> emitter::flow_text(Node::Str(s), shown) == s,
{
    if is_written_bare(s) {
        assert(!emitter::has_pair(s, ':', ' ')) by {
            if emitter::has_pair(s, ':', ' ') {
                let i = choose|i: int| emitter::pair_at(s, i, ':', ' ');
                assert(s[i] == ':');
            }
        }
        assert(!emitter::has_pair(s, ' ', '#')) by {
            if emitter::has_pair(s, ' ', '#') {
                let i = choose|i: int| emitter::pair_at(s, i, ' ', '#');
                assert(s[i] == ' ');
            }
        }
        assert forall|i: int| 0 <= i < s.len() implies !text::is_flow_indicator(#[trigger] s[i])
            && !emitter::is_control(s[i]) by {
            assert(!is_bad(s[i]));
        }
        assert(!emitter::needs_quoting(s));
    } else {
        if !emitter::needs_quoting(s) {
            assert forall|i: int| 0 <= i < s.len() implies !is_bad(#[trigger] s[i]) by {
                assert(!text::is_flow_indicator(s[i]));
                assert(!emitter::is_control(s[i]));
            }
            assert forall|i: int| 0 <= i < s.len() - 1 && #[trigger] s[i] == ':' implies s[i + 1]
                != ' ' by {
                assert(!emitter::pair_at(s, i, ':', ' '));
            }
            assert forall|i: int| 0 <= i < s.len() - 1 && #[trigger] s[i] == ' ' implies s[i + 1]
                != '#' by {
                assert(!emitter::pair_at(s, i, ' ', '#'));
            }
            assert(false);
        }
        lemma_escaped_length(s);
        assert(emitter::quoted_text(s).len() > s.len());
    }
}

proof fn lemma_escaped_length(s: Seq<char>)
    ensures
        emitter::escaped(s).len() >= s.len(),
    decreases s.len(),
{
    if s.len() > 0 {
        lemma_escaped_length(s.drop_last());
    }
}

/// What stands between the quotes.
pub open spec fn inner(s: Seq<char>) -> Seq<char> {
    emitter::quoted_text(s).subrange(1, emitter::quoted_text(s).len() - 1)
}

proof fn lemma_inner(s: Seq<char>)
    ensures
        inner(s) == emitter::escaped(s),
{
    assert(inner(s) == emitter::escaped(s));
}

proof fn lemma_escaped_joined(a: Seq<char>, b: Seq<char>)
    ensures
        emitter::escaped(a + b) == emitter::escaped(a) + emitter::escaped(b),
    decreases b.len(),
{
    if b.len() == 0 {
        assert(a + b == a);
        assert(emitter::escaped(a) + Seq::<char>::empty() == emitter::escaped(a));
    } else {
        lemma_escaped_joined(a, b.drop_last());
        assert((a + b).drop_last() == a + b.drop_last());
        let x = emitter::escaped(a);
        let y = emitter::escaped(b.drop_last());
        let z = emitter::escaped_char(b.last());
        assert(x + y + z == x + (y + z));
    }
}

/// A string in double quotes is its characters one after the other, between quotes: a quote
/// and a backslash behind a backslash, a line break, a tab and a carriage return as `\n`,
/// `\t` and `\r`, another control character below the space as `\x` and two hex digits, and
/// every other character as it is.
pub proof fn law_quoted_strings_are_escaped(a: Seq<char>, b: Seq<char>, c: char)
    ensures
        emitter::quoted_text(a) == seq!['"'] + inner(a) + seq!['"'],
        inner(Seq::empty()) == Seq::<char>::empty(),
        inner(a + b) == inner(a) + inner(b),
        c == '"' ==> inner(seq![c]) == seq!['\\', '"'],
        c == '\\' ==> inner(seq![c]) == seq!['\\', '\\'],
        c == '\n' ==> inner(seq![c]) == seq!['\\', 'n'],
        c == '\t' ==> inner(seq![c]) == seq!['\\', 't'],
        c == '\r' ==> inner(seq![c]) == seq!['\\', 'r'],
        ' ' > c && c != '\n' && c != '\t' && c != '\r' ==> {
            let t = inner(seq![c]);
            &&& t.len() == 4
            &&& t[0] == '\\' && t[1] == 'x'
            &&& 16 * resolution::symbol(t[2]) + resolution::symbol(t[3]) == c as int
            &&& !('A' <= t[2] <= 'F') && !('A' <= t[3] <= 'F')
        },
        c >= ' ' && c != '"' && c != '\\' ==> inner(seq![c]) == seq![c],
{
    lemma_inner(a);
    lemma_inner(b);
    lemma_inner(a + b);
    lemma_inner(seq![c]);
    lemma_inner(Seq::empty());
    lemma_escaped_joined(a, b);
    assert(seq![c].drop_last() == Seq::<char>::empty());
    assert(emitter::escaped(seq![c].drop_last()) == Seq::<char>::empty());
    assert(emitter::escaped(seq![c]) == Seq::<char>::empty() + emitter::escaped_char(c));
    assert(Seq::<char>::empty() + emitter::escaped_char(c) == emitter::escaped_char(c));
    if ' ' > c {
        let n = c as nat;
        reveal_with_fuel(text::hex_text, 3);
        assert(n / 16 < 16);
        leaf::lemma_digit_symbol(n / 16, false);
        leaf::lemma_digit_symbol(n % 16, false);
        assert(text::hex_text(n, 2, false) == seq![
            text::digit_symbol(n / 16, false),
            text::digit_symbol(n % 16, false),
        ]);
    }
}

// ---------------------------------------------------------------------------
// Collections
// ---------------------------------------------------------------------------

/// The texts, one after the other, with a comma and a space between them.
pub open spec fn listed(ts: Seq<Seq<char>>) -> Seq<char>
    decreases ts.len(),
{
    if ts.len() == 0 {
        Seq::empty()
    } else if ts.len() == 1 {
        ts[0]
    } else {
        listed(ts.drop_last()) + seq![',', ' '] + ts.last()
    }
}

/// The texts of the items of a sequence.
pub open spec fn item_texts(items: Seq<Node>, shown: Map<u64, Seq<char>>) -> Seq<Seq<char>> {
    Seq::new(items.len(), |i: int| emitter::flow_text(items[i], shown))
}

/// The texts of the entries of a mapping: the key, a colon, a space and the value.
pub open spec fn entry_texts(entries: Seq<(Node, Node)>, shown: Map<u64, Seq<char>>) -> Seq<
    Seq<char>,
> {
    Seq::new(
        entries.len(),
        |i: int|
            emitter::flow_text(entries[i].0, shown) + seq![':', ' '] + emitter::flow_text(
                entries[i].1,
                shown,
            ),
    )
}

proof fn lemma_items(items: Seq<Node>, i: int, shown: Map<u64, Seq<char>>)
    requires
        0 <= i <= items.len(),
    ensures
        listed(item_texts(items, shown).take(i)) + emitter::items_text(items, i, shown) == listed(
            item_texts(items, shown),
        ),
    decreases items.len() - i,
{
    let ts = item_texts(items, shown);
    if i == items.len() {
        assert(ts.take(i) == ts);
        assert(listed(ts) + Seq::<char>::empty() == listed(ts));
    } else {
        lemma_items(items, i + 1, shown);
        let rest = emitter::items_text(items, i + 1, shown);
        let next = ts.take(i + 1);
        assert(next.drop_last() == ts.take(i));
        assert(next.last() == ts[i]);
        if i == 0 {
            assert(listed(ts.take(i)) == Seq::<char>::empty());
            assert(listed(next) == ts[0]);
            assert(Seq::<char>::empty() + (Seq::<char>::empty() + ts[0] + rest) == ts[0] + rest);
        } else {
            assert(listed(ts.take(i)) + (seq![',', ' '] + ts[i] + rest) == listed(ts.take(i)) + seq![
                ',',
                ' ',
            ] + ts[i] + rest);
        }
    }
}

proof fn lemma_entries(entries: Seq<(Node, Node)>, i: int, shown: Map<u64, Seq<char>>)
    requires
        0 <= i <= entries.len(),
    ensures
        listed(entry_texts(entries, shown).take(i)) + emitter::entries_text(entries, i, shown)
            == listed(entry_texts(entries, shown)),
    decreases entries.len() - i,
{
    let ts = entry_texts(entries, shown);
    if i == entries.len() {
        assert(ts.take(i) == ts);
        assert(listed(ts) + Seq::<char>::empty() == listed(ts));
    } else {
        lemma_entries(entries, i + 1, shown);
        let rest = emitter::entries_text(entries, i + 1, shown);
        let key = emitter::flow_text(entries[i].0, shown);
        let value = emitter::flow_text(entries[i].1, shown);
        let next = ts.take(i + 1);
        assert(next.drop_last() == ts.take(i));
        assert(next.last() == ts[i]);
        assert(emitter::entries_text(entries, i, shown) == emitter::separator(i) + (ts[i] + rest));
        if i == 0 {
            assert(listed(ts.take(i)) == Seq::<char>::empty());
            assert(listed(next) == ts[0]);
            assert(Seq::<char>::empty() + (Seq::<char>::empty() + (ts[0] + rest)) == ts[0] + rest);
        } else {
            assert(listed(ts.take(i)) + (seq![',', ' '] + (ts[i] + rest)) == listed(ts.take(i))
                + seq![',', ' '] + ts[i] + rest);
        }
    }
}

/// A sequence is written as its items in brackets, and a mapping as its entries in braces,
/// in their order; a document ends with a line break, and each document of a stream begins
/// with a `---` line.
pub proof fn law_collections_are_written_in_order(
    items: Seq<Node>,
    entries: Seq<(Node, Node)>,
    values: Seq<Node>,
    n: Node,
    shown: Map<u64, Seq<char>>,
)
    ensures
        emitter::flow_text(Node::Sequence(items), shown) == seq!['['] + listed(
            item_texts(items, shown),
        ) + seq![']'],
        emitter::flow_text(Node::Mapping(entries), shown) == seq!['{'] + listed(
            entry_texts(entries, shown),
        ) + seq!['}'],
        emitter::document_text(n, shown) == emitter::flow_text(n, shown) + seq!['\n'],
        emitter::stream_text(Seq::empty(), 0, shown) == Seq::<char>::empty(),
        emitter::stream_text(values.push(n), 0, shown) == emitter::stream_text(values, 0, shown)
            + seq!['-', '-', '-', '\n'] + emitter::flow_text(n, shown) + seq!['\n'],
{
    lemma_items(items, 0, shown);
    lemma_entries(entries, 0, shown);
    let none = Seq::<char>::empty();
    assert(item_texts(items, shown).take(0) == Seq::<Seq<char>>::empty());
    assert(entry_texts(entries, shown).take(0) == Seq::<Seq<char>>::empty());
    assert(none + emitter::items_text(items, 0, shown) == emitter::items_text(items, 0, shown));
    assert(none + emitter::entries_text(entries, 0, shown) == emitter::entries_text(
        entries,
        0,
        shown,
    ));
    assert(emitter::document_text(n, shown) == emitter::flow_text(n, shown) + seq!['\n']);
    lemma_stream(values, n, 0, shown);
}

proof fn lemma_stream(values: Seq<Node>, n: Node, i: int, shown: Map<u64, Seq<char>>)
    requires
        0 <= i <= values.len(),
    ensures
        emitter::stream_text(values.push(n), i, shown) == emitter::stream_text(values, i, shown)
            + seq!['-', '-', '-', '\n'] + emitter::flow_text(n, shown) + seq!['\n'],
    decreases values.len() - i,
{
    reveal_strlit("---\n");
    let mark = seq!['-', '-', '-', '\n'];
    assert("---\n"@ == mark);
    let all = values.push(n);
    let none = Seq::<char>::empty();
    if i == values.len() {
        assert(emitter::stream_text(all, i + 1, shown) == none);
        assert(emitter::stream_text(all, i, shown) == mark + emitter::document_text(n, shown)
            + none);
        assert(mark + emitter::document_text(n, shown) + none == none + mark + emitter::flow_text(
            n,
            shown,
        ) + seq!['\n']);
    } else {
        lemma_stream(values, n, i + 1, shown);
        let head = mark + emitter::document_text(values[i], shown);
        let rest = emitter::stream_text(values, i + 1, shown);
        let last = emitter::flow_text(n, shown);
        assert(all[i] == values[i]);
        assert(head + (rest + mark + last + seq!['\n']) == head + rest + mark + last + seq!['\n']);
    }
}

} // verus!
