//! Tokens: the scanner reads the text of a value as the tokens of that value.

use crate::emitter;
use crate::floats::Floats;
use crate::meta::ScalarStyle;
use crate::node;
use crate::node::Node;
use crate::options::{Limits, Schema};
use crate::roundtrip::leaf;
use crate::roundtrip::parse;
use crate::scalar;
use crate::scanner::lex;
use crate::scanner::model;
use crate::scanner::model::{Failure, Produced, ScanState};
use crate::scanner::plain;
use crate::scanner::reader;
use crate::scanner::token::{Lexeme, Tok};
use crate::text;
use vstd::prelude::*;

verus! {

// ---------------------------------------------------------------------------
// The tokens of a value
// ---------------------------------------------------------------------------

/// The token of a scalar.
pub open spec fn scalar_lexeme(n: Node, shown: Map<u64, Seq<char>>) -> Lexeme {
    match n {
        Node::Str(s) => Lexeme::Scalar {
            value: s,
            style: if emitter::needs_quoting(s) {
                ScalarStyle::DoubleQuoted
            } else {
                ScalarStyle::Plain
            },
        },
        _ => Lexeme::Scalar { value: emitter::flow_text(n, shown), style: ScalarStyle::Plain },
    }
}

/// The tokens of a value in flow form.
pub open spec fn lexemes(n: Node, shown: Map<u64, Seq<char>>) -> Seq<Lexeme>
    decreases n, 0int,
{
    match n {
        Node::Sequence(items) => seq![Lexeme::FlowSequenceStart] + items_lexemes(items, 0, shown)
            + seq![Lexeme::FlowSequenceEnd],
        Node::Mapping(entries) => seq![Lexeme::FlowMappingStart] + entries_lexemes(
            entries,
            0,
            shown,
        ) + seq![Lexeme::FlowMappingEnd],
        _ => seq![scalar_lexeme(n, shown)],
    }
}

/// The token that separates the `i`th item from the one before it.
pub open spec fn separator(i: int) -> Seq<Lexeme> {
    if i > 0 {
        seq![Lexeme::FlowEntry]
    } else {
        Seq::empty()
    }
}

/// The tokens of the items from `i` on.
pub open spec fn items_lexemes(items: Seq<Node>, i: int, shown: Map<u64, Seq<char>>) -> Seq<Lexeme>
    decreases items, items.len() - i,
{
    if 0 <= i < items.len() {
        separator(i) + lexemes(items[i], shown) + items_lexemes(items, i + 1, shown)
    } else {
        Seq::empty()
    }
}

/// The tokens of the entries from `i` on.
pub open spec fn entries_lexemes(
    entries: Seq<(Node, Node)>,
    i: int,
    shown: Map<u64, Seq<char>>,
) -> Seq<Lexeme>
    decreases entries, entries.len() - i,
{
    if 0 <= i < entries.len() {
        separator(i) + lexemes(entries[i].0, shown) + seq![Lexeme::Value] + lexemes(
            entries[i].1,
            shown,
        ) + entries_lexemes(entries, i + 1, shown)
    } else {
        Seq::empty()
    }
}

/// The kinds of tokens.
pub open spec fn kinds(ts: Seq<Tok>) -> Seq<Lexeme> {
    Seq::new(ts.len(), |i: int| ts[i].kind)
}

// ---------------------------------------------------------------------------
// Values that survive
// ---------------------------------------------------------------------------

/// The text of a float is a decimal number that stands for the same float. Of
/// the values that are not numbers, the one that `.nan` stands for survives.
pub open spec fn float_survives(bits: u64, floats: Floats) -> bool {
    let shown = emitter::float_text(bits, floats.texts[bits]);
    if emitter::is_finite(bits) {
        &&& floats.texts.contains_key(bits)
        &&& scalar::is_float(shown, ScalarStyle::Plain, Schema::Core1_2)
        &&& floats.bits.contains_key(shown)
        &&& floats.bits[shown] == bits
    } else {
        bits == scalar::INFINITY || bits == scalar::NEG_INFINITY || bits == scalar::NAN
    }
}

/// The value can be read back: its floats have texts that stand for them, and no
/// mapping has a key twice.
pub open spec fn survives(n: Node, floats: Floats) -> bool
    decreases n,
{
    match n {
        Node::Float(bits) => float_survives(bits, floats),
        Node::Sequence(items) => forall|i: int|
            0 <= i < items.len() ==> survives(#[trigger] items[i], floats),
        Node::Mapping(entries) => {
            &&& node::distinct_keys(entries)
            &&& forall|i: int|
                0 <= i < entries.len() ==> survives((#[trigger] entries[i]).0, floats) && survives(
                    entries[i].1,
                    floats,
                )
        },
        _ => true,
    }
}

/// The floats of the value can be read back.
pub open spec fn is_legible(n: Node, floats: Floats) -> bool
    decreases n,
{
    match n {
        Node::Float(bits) => float_survives(bits, floats),
        Node::Sequence(items) => forall|i: int|
            0 <= i < items.len() ==> is_legible(#[trigger] items[i], floats),
        Node::Mapping(entries) => forall|i: int|
            0 <= i < entries.len() ==> is_legible((#[trigger] entries[i]).0, floats) && is_legible(
                entries[i].1,
                floats,
            ),
        _ => true,
    }
}

/// A valid value survives if its floats can be read back.
pub proof fn lemma_legible(n: Node, floats: Floats)
    requires
        node::is_valid(n),
        is_legible(n, floats),
    ensures
        survives(n, floats),
    decreases n,
{
    match n {
        Node::Sequence(items) => {
            assert forall|i: int| 0 <= i < items.len() implies survives(
                #[trigger] items[i],
                floats,
            ) by {
                lemma_legible(items[i], floats);
            }
        },
        Node::Mapping(entries) => {
            assert forall|i: int| 0 <= i < entries.len() implies survives(
                (#[trigger] entries[i]).0,
                floats,
            ) && survives(entries[i].1, floats) by {
                lemma_legible(entries[i].0, floats);
                lemma_legible(entries[i].1, floats);
            }
        },
        _ => {},
    }
}

/// The value holds no finite float. It may hold the infinities, and the value that `.nan`
/// stands for.
pub open spec fn has_no_finite_float(n: Node) -> bool
    decreases n,
{
    match n {
        Node::Float(bits) => bits == scalar::INFINITY || bits == scalar::NEG_INFINITY || bits
            == scalar::NAN,
        Node::Sequence(items) => forall|i: int|
            0 <= i < items.len() ==> has_no_finite_float(#[trigger] items[i]),
        Node::Mapping(entries) => forall|i: int|
            0 <= i < entries.len() ==> has_no_finite_float((#[trigger] entries[i]).0)
                && has_no_finite_float(entries[i].1),
        _ => true,
    }
}

/// Without finite floats any table will do.
pub proof fn lemma_no_finite_float(n: Node, floats: Floats)
    requires
        has_no_finite_float(n),
    ensures
        is_legible(n, floats),
    decreases n,
{
    match n {
        Node::Sequence(items) => {
            assert forall|i: int| 0 <= i < items.len() implies is_legible(
                #[trigger] items[i],
                floats,
            ) by {
                lemma_no_finite_float(items[i], floats);
            }
        },
        Node::Mapping(entries) => {
            assert forall|i: int| 0 <= i < entries.len() implies is_legible(
                (#[trigger] entries[i]).0,
                floats,
            ) && is_legible(entries[i].1, floats) by {
                lemma_no_finite_float(entries[i].0, floats);
                lemma_no_finite_float(entries[i].1, floats);
            }
        },
        _ => {},
    }
}

/// The text of a scalar that survives: a quoted string or a safe plain one.
pub proof fn lemma_scalar_text(n: Node, floats: Floats)
    requires
        survives(n, floats),
        !(n is Sequence),
        !(n is Mapping),
    ensures
        match n {
            Node::Str(s) if emitter::needs_quoting(s) => emitter::flow_text(n, floats.texts)
                == emitter::quoted_text(s),
            _ => {
                &&& leaf::plain_safe(emitter::flow_text(n, floats.texts))
                &&& scalar_lexeme(n, floats.texts) == (Lexeme::Scalar {
                    value: emitter::flow_text(n, floats.texts),
                    style: ScalarStyle::Plain,
                })
            },
        },
{
    match n {
        Node::Null | Node::Bool(_) => leaf::lemma_words_safe(),
        Node::Int(i) => leaf::lemma_integer(i, 0),
        Node::Float(bits) => {
            leaf::lemma_words_safe();
            if emitter::is_finite(bits) {
                leaf::lemma_decimal_safe(emitter::flow_text(n, floats.texts));
            }
        },
        Node::Str(s) => {
            if !emitter::needs_quoting(s) {
                leaf::lemma_string_safe(s);
            }
        },
        _ => {},
    }
}

// ---------------------------------------------------------------------------
// Steps
// ---------------------------------------------------------------------------

/// The stream is open, no block collection is, and nothing is pending.
pub open spec fn calm(st: ScanState) -> bool {
    &&& st.started
    &&& !st.ended
    &&& st.indent == -1
    &&& st.indents.len() == 0
    &&& st.key is None
    &&& !st.pending_directives
    &&& !st.tab_in_indent
}

/// From `st` the scanner gets to `next`, which is at `pos` with `depth` flow
/// collections open, and produces tokens of the kinds `ks`.
pub open spec fn reaches(
    text: Seq<char>,
    limits: Limits,
    st: ScanState,
    next: ScanState,
    pos: int,
    depth: nat,
    ks: Seq<Lexeme>,
) -> bool {
    &&& model::run(text, limits, st) == model::run(text, limits, next)
    &&& calm(next)
    &&& next.pos == pos
    &&& next.flow_depth == depth
    &&& kinds(next.out) == kinds(st.out) + ks
}

/// A token begins at `i`.
pub open spec fn token_starts(text: Seq<char>, i: int) -> bool {
    &&& 0 <= i < text.len()
    &&& !text::is_blank(text[i])
    &&& !text::is_break(text[i])
    &&& text[i] != '#'
}

/// At most one space or line break lies before the next token.
pub open spec fn short_gap(text: Seq<char>, i: int, gap: int) -> bool {
    &&& 0 <= gap <= 1
    &&& 0 <= i
    &&& token_starts(text, i + gap)
    &&& gap == 1 ==> text[i] == ' ' || text[i] == '\n'
}

/// The state behind a short gap.
pub open spec fn arrived(text: Seq<char>, st: ScanState, gap: int) -> ScanState {
    ScanState {
        pos: st.pos + gap,
        at_line_start: false,
        key_allowed: st.key_allowed || (gap == 1 && text[st.pos] == '\n' && st.flow_depth == 0),
        ..st
    }
}

/// A short gap is skipped.
proof fn lemma_short_gap(text: Seq<char>, st: ScanState, gap: int)
    requires
        calm(st),
        short_gap(text, st.pos, gap),
    ensures
        model::after_gap(text, st) == Ok::<ScanState, Failure>(arrived(text, st, gap)),
{
    reveal_with_fuel(model::skip_gap, 3);
}

/// One step that produces one token.
proof fn lemma_step(text: Seq<char>, limits: Limits, st: ScanState, gap: int, p: Produced) -> (next:
    ScanState)
    requires
        calm(st),
        short_gap(text, st.pos, gap),
        st.flow_depth > 0 || !model::starts_key(text[st.pos + gap]),
        model::content(text, arrived(text, st, gap)) == Ok::<Produced, Failure>(p),
        calm(p.st),
        p.st.out == st.out,
    ensures
        reaches(text, limits, st, next, p.st.pos, p.st.flow_depth, seq![p.tok.kind]),
{
    let at = arrived(text, st, gap);
    lemma_short_gap(text, st, gap);
    lex::lemma_column_positive(text, at.pos);
    assert(model::unrolled(text, at, lex::indent_at(text, at.pos)) == at);
    assert(model::key_marked(text, at) == at);
    assert(model::token_step(text, at) == model::token_added(text, at.pos, p));
    let next = model::token_added(text, at.pos, p)->Ok_0;
    assert(model::fetch(text, limits, st) == Ok::<ScanState, Failure>(next));
    assert(kinds(next.out) == kinds(st.out) + seq![p.tok.kind]);
    next
}

/// A bracket, a comma or a colon is one token; the depth follows the brackets.
proof fn lemma_indicator(text: Seq<char>, limits: Limits, st: ScanState, gap: int, kind: Lexeme) -> (next:
    ScanState)
    requires
        calm(st),
        short_gap(text, st.pos, gap),
        ({
            let c = text[st.pos + gap];
            ||| c == '[' && kind == Lexeme::FlowSequenceStart
            ||| c == '{' && kind == Lexeme::FlowMappingStart
            ||| c == ']' && kind == Lexeme::FlowSequenceEnd && st.flow_depth > 0
            ||| c == '}' && kind == Lexeme::FlowMappingEnd && st.flow_depth > 0
            ||| c == ',' && kind == Lexeme::FlowEntry && st.flow_depth > 0
            ||| c == ':' && kind == Lexeme::Value && st.flow_depth > 0
        }),
    ensures
        reaches(
            text,
            limits,
            st,
            next,
            st.pos + gap + 1,
            (st.flow_depth + match kind {
                Lexeme::FlowSequenceStart | Lexeme::FlowMappingStart => 1int,
                Lexeme::FlowSequenceEnd | Lexeme::FlowMappingEnd => -1,
                _ => 0,
            }) as nat,
            seq![kind],
        ),
{
    let at = arrived(text, st, gap);
    let p = model::content(text, at)->Ok_0;
    lemma_step(text, limits, st, gap, p)
}

/// The place of a value in a text: behind a gap, and followed by something that
/// ends a plain scalar.
pub open spec fn placed(text: Seq<char>, i: int, gap: int, n: Node, shown: Map<u64, Seq<char>>) -> bool {
    &&& 0 <= gap <= 1
    &&& gap == 1 ==> 0 <= i < text.len() && (text[i] == ' ' || text[i] == '\n')
    &&& leaf::holds(text, i + gap, emitter::flow_text(n, shown))
    &&& flow_follows(text, i + gap + emitter::flow_text(n, shown).len())
}

/// What the emitter puts behind a value inside a flow collection.
pub open spec fn flow_follows(text: Seq<char>, e: int) -> bool {
    ||| 0 <= e < text.len() && text::is_flow_indicator(text[e])
    ||| reader::char_at(text, e) == Some(':') && reader::char_at(text, e + 1) == Some(' ')
}

/// A scalar inside a flow collection is one token.
proof fn lemma_scan_scalar(
    text: Seq<char>,
    limits: Limits,
    st: ScanState,
    gap: int,
    n: Node,
    floats: Floats,
) -> (next: ScanState)
    requires
        calm(st),
        st.flow_depth > 0,
        0 <= st.pos,
        survives(n, floats),
        !(n is Sequence),
        !(n is Mapping),
        placed(text, st.pos, gap, n, floats.texts),
    ensures
        reaches(
            text,
            limits,
            st,
            next,
            st.pos + gap + emitter::flow_text(n, floats.texts).len(),
            st.flow_depth,
            lexemes(n, floats.texts),
        ),
{
    let i = st.pos + gap;
    let t = emitter::flow_text(n, floats.texts);
    let at = arrived(text, st, gap);
    lemma_scalar_text(n, floats);
    lemma_scalar_content(text, at, n, floats);
    let p = model::content(text, at)->Ok_0;
    lemma_step(text, limits, st, gap, p)
}

/// The content step of a scalar, inside a flow collection or outside.
proof fn lemma_scalar_content(text: Seq<char>, at: ScanState, n: Node, floats: Floats)
    requires
        survives(n, floats),
        !(n is Sequence),
        !(n is Mapping),
        leaf::holds(text, at.pos, emitter::flow_text(n, floats.texts)),
        ({
            let e = at.pos + emitter::flow_text(n, floats.texts).len();
            if at.flow_depth > 0 {
                flow_follows(text, e)
            } else {
                leaf::ends_document(text, e)
            }
        }),
    ensures
        token_starts(text, at.pos),
        text[at.pos] != '%',
        model::content(text, at) matches Ok(p) && p.tok.kind == scalar_lexeme(n, floats.texts)
            && p.st == (ScanState {
            pos: at.pos + emitter::flow_text(n, floats.texts).len(),
            ..at
        }),
{
    let i = at.pos;
    let t = emitter::flow_text(n, floats.texts);
    lemma_scalar_text(n, floats);
    if n is Str && emitter::needs_quoting(n->Str_0) {
        leaf::lemma_quoted(text, i, n->Str_0);
    } else {
        leaf::lemma_plain(text, i, t, at.flow_depth > 0, at.indent);
        assert(text[i + 0] == t[0]);
        assert(!text::is_flow_indicator(t[0]) && !emitter::is_control(t[0]));
        lemma_no_marker(text, i, t);
        if t.len() > 1 {
            assert(text[i + 1] == t[1]);
        }
    }
}

/// A safe plain scalar is no document marker.
proof fn lemma_no_marker(text: Seq<char>, i: int, t: Seq<char>)
    requires
        leaf::holds(text, i, t),
        leaf::plain_safe(t),
        ({
            let e = i + t.len();
            flow_follows(text, e) || leaf::ends_document(text, e)
        }),
    ensures
        !lex::any_marker_at(text, i),
{
    assert(text[i + 0] == t[0]);
    if t.len() > 1 {
        assert(text[i + 1] == t[1]);
    }
    if t.len() > 2 {
        assert(text[i + 2] == t[2]);
    }
    if t.len() > 3 {
        assert(text[i + 3] == t[3]);
        assert(!emitter::is_control(t[3]));
    }
}

// ---------------------------------------------------------------------------
// Whole values
// ---------------------------------------------------------------------------

/// One stretch of scanning after another.
proof fn lemma_reaches(
    text: Seq<char>,
    limits: Limits,
    a: ScanState,
    b: ScanState,
    c: ScanState,
    ks: Seq<Lexeme>,
    more: Seq<Lexeme>,
)
    requires
        reaches(text, limits, a, b, b.pos, b.flow_depth, ks),
        reaches(text, limits, b, c, c.pos, c.flow_depth, more),
    ensures
        reaches(text, limits, a, c, c.pos, c.flow_depth, ks + more),
{
    assert(kinds(a.out) + ks + more == kinds(a.out) + (ks + more));
}

/// The text of a value begins with something that begins a token.
proof fn lemma_text_starts(text: Seq<char>, i: int, n: Node, floats: Floats)
    requires
        survives(n, floats),
        leaf::holds(text, i, emitter::flow_text(n, floats.texts)),
    ensures
        emitter::flow_text(n, floats.texts).len() > 0,
        token_starts(text, i),
        text[i] == emitter::flow_text(n, floats.texts)[0],
        n is Sequence ==> text[i] == '[',
        n is Mapping ==> text[i] == '{',
{
    let t = emitter::flow_text(n, floats.texts);
    match n {
        Node::Sequence(_) => {
            assert(t[0] == '[');
        },
        Node::Mapping(_) => {
            assert(t[0] == '{');
        },
        _ => {
            lemma_scalar_text(n, floats);
            if !(n is Str && emitter::needs_quoting(n->Str_0)) {
                assert(!text::is_flow_indicator(t[0]) && !emitter::is_control(t[0]));
            }
        },
    }
    assert(text[i + 0] == t[0]);
}

/// A value inside a flow collection, or a collection anywhere, is scanned as its
/// tokens.
pub proof fn lemma_scan(
    text: Seq<char>,
    limits: Limits,
    st: ScanState,
    gap: int,
    n: Node,
    floats: Floats,
) -> (next: ScanState)
    requires
        calm(st),
        0 <= st.pos,
        survives(n, floats),
        0 <= gap <= 1,
        gap == 1 ==> st.pos < text.len() && (text[st.pos] == ' ' || text[st.pos] == '\n'),
        leaf::holds(text, st.pos + gap, emitter::flow_text(n, floats.texts)),
        n is Sequence || n is Mapping || (st.flow_depth > 0 && flow_follows(
            text,
            st.pos + gap + emitter::flow_text(n, floats.texts).len(),
        )),
    ensures
        reaches(
            text,
            limits,
            st,
            next,
            st.pos + gap + emitter::flow_text(n, floats.texts).len(),
            st.flow_depth,
            lexemes(n, floats.texts),
        ),
    decreases n, 0int,
{
    let shown = floats.texts;
    let i = st.pos + gap;
    lemma_text_starts(text, i, n, floats);
    match n {
        Node::Sequence(items) => {
            let inner = emitter::items_text(items, 0, shown);
            assert(emitter::flow_text(n, shown) == seq!['['] + (inner + seq![']']));
            leaf::lemma_holds(text, i, seq!['['], inner + seq![']']);
            let open = lemma_indicator(text, limits, st, gap, Lexeme::FlowSequenceStart);
            let closed = lemma_scan_items(text, limits, open, items, 0, floats);
            let rest = items_lexemes(items, 0, shown) + seq![Lexeme::FlowSequenceEnd];
            lemma_reaches(
                text,
                limits,
                st,
                open,
                closed,
                seq![Lexeme::FlowSequenceStart],
                rest,
            );
            assert(seq![Lexeme::FlowSequenceStart] + rest == lexemes(n, shown));
            closed
        },
        Node::Mapping(entries) => {
            let inner = emitter::entries_text(entries, 0, shown);
            assert(emitter::flow_text(n, shown) == seq!['{'] + (inner + seq!['}']));
            leaf::lemma_holds(text, i, seq!['{'], inner + seq!['}']);
            let open = lemma_indicator(text, limits, st, gap, Lexeme::FlowMappingStart);
            let closed = lemma_scan_entries(text, limits, open, entries, 0, floats);
            let rest = entries_lexemes(entries, 0, shown) + seq![Lexeme::FlowMappingEnd];
            lemma_reaches(
                text,
                limits,
                st,
                open,
                closed,
                seq![Lexeme::FlowMappingStart],
                rest,
            );
            assert(seq![Lexeme::FlowMappingStart] + rest == lexemes(n, shown));
            closed
        },
        _ => lemma_scan_scalar(text, limits, st, gap, n, floats),
    }
}

/// The items from `i` on and the closing bracket.
proof fn lemma_scan_items(
    text: Seq<char>,
    limits: Limits,
    st: ScanState,
    items: Seq<Node>,
    i: int,
    floats: Floats,
) -> (next: ScanState)
    requires
        calm(st),
        0 <= i <= items.len(),
        st.flow_depth > 0,
        forall|j: int| 0 <= j < items.len() ==> survives(#[trigger] items[j], floats),
        leaf::holds(text, st.pos, emitter::items_text(items, i, floats.texts) + seq![']']),
    ensures
        reaches(
            text,
            limits,
            st,
            next,
            st.pos + emitter::items_text(items, i, floats.texts).len() + 1,
            (st.flow_depth - 1) as nat,
            items_lexemes(items, i, floats.texts) + seq![Lexeme::FlowSequenceEnd],
        ),
    decreases items, items.len() - i,
{
    let shown = floats.texts;
    let end = seq![Lexeme::FlowSequenceEnd];
    if i == items.len() {
        assert(emitter::items_text(items, i, shown) + seq![']'] == seq![']']);
        assert(text[st.pos + 0] == seq![']'][0]);
        assert(items_lexemes(items, i, shown) + end == end);
        lemma_indicator(text, limits, st, 0, Lexeme::FlowSequenceEnd)
    } else {
        let sep = emitter::separator(i);
        let here = emitter::flow_text(items[i], shown);
        let rest = emitter::items_text(items, i + 1, shown) + seq![']'];
        assert(emitter::items_text(items, i, shown) + seq![']'] == sep + (here + rest));
        leaf::lemma_holds(text, st.pos, sep, here + rest);
        leaf::lemma_holds(text, st.pos + sep.len(), here, rest);
        lemma_item_follow(text, st.pos + sep.len() + here.len(), items, i + 1, floats);
        let item = items[i];
        assert(survives(item, floats));
        let begun = if i > 0 {
            assert(text[st.pos + 0] == sep[0]);
            assert(text[st.pos + 1] == sep[1]);
            lemma_indicator(text, limits, st, 0, Lexeme::FlowEntry)
        } else {
            st
        };
        let gap = if i > 0 {
            1int
        } else {
            0int
        };
        let done = lemma_scan(text, limits, begun, gap, item, floats);
        let next = lemma_scan_items(text, limits, done, items, i + 1, floats);
        let tail = items_lexemes(items, i + 1, shown) + end;
        lemma_reaches(text, limits, begun, done, next, lexemes(item, shown), tail);
        let both = lexemes(item, shown) + tail;
        if i > 0 {
            lemma_reaches(text, limits, st, begun, next, separator(i), both);
        } else {
            assert(separator(i) + both == both);
        }
        assert(items_lexemes(items, i, shown) + end == separator(i) + both);
        next
    }
}

/// Behind an item stands a comma or the closing bracket.
proof fn lemma_item_follow(text: Seq<char>, e: int, items: Seq<Node>, i: int, floats: Floats)
    requires
        0 < i <= items.len(),
        leaf::holds(text, e, emitter::items_text(items, i, floats.texts) + seq![']']),
    ensures
        flow_follows(text, e),
{
    let t = emitter::items_text(items, i, floats.texts) + seq![']'];
    assert(text[e + 0] == t[0]);
    if i < items.len() {
        assert(t[0] == emitter::separator(i)[0]);
    }
}

/// The entries from `i` on and the closing brace.
#[verifier::rlimit(30)]
#[verifier::spinoff_prover]
proof fn lemma_scan_entries(
    text: Seq<char>,
    limits: Limits,
    st: ScanState,
    entries: Seq<(Node, Node)>,
    i: int,
    floats: Floats,
) -> (next: ScanState)
    requires
        calm(st),
        0 <= i <= entries.len(),
        st.flow_depth > 0,
        forall|j: int|
            0 <= j < entries.len() ==> survives((#[trigger] entries[j]).0, floats) && survives(
                entries[j].1,
                floats,
            ),
        leaf::holds(text, st.pos, emitter::entries_text(entries, i, floats.texts) + seq!['}']),
    ensures
        reaches(
            text,
            limits,
            st,
            next,
            st.pos + emitter::entries_text(entries, i, floats.texts).len() + 1,
            (st.flow_depth - 1) as nat,
            entries_lexemes(entries, i, floats.texts) + seq![Lexeme::FlowMappingEnd],
        ),
    decreases entries, entries.len() - i,
{
    let shown = floats.texts;
    let end = seq![Lexeme::FlowMappingEnd];
    if i == entries.len() {
        assert(emitter::entries_text(entries, i, shown) + seq!['}'] == seq!['}']);
        assert(text[st.pos + 0] == seq!['}'][0]);
        assert(entries_lexemes(entries, i, shown) + end == end);
        lemma_indicator(text, limits, st, 0, Lexeme::FlowMappingEnd)
    } else {
        let entry = entries[i];
        let sep = emitter::separator(i);
        let here = entry_text(entry, shown);
        let rest = emitter::entries_text(entries, i + 1, shown) + seq!['}'];
        assert(emitter::entries_text(entries, i, shown) + seq!['}'] == sep + (here + rest));
        leaf::lemma_holds(text, st.pos, sep, here + rest);
        leaf::lemma_holds(text, st.pos + sep.len(), here, rest);
        lemma_entry_follow(text, st.pos + sep.len() + here.len(), entries, i + 1, floats);
        assert(survives(entry.0, floats) && survives(entry.1, floats));
        assert(decreases_to!(entries => entry));
        let begun = if i > 0 {
            assert(text[st.pos + 0] == sep[0]);
            assert(text[st.pos + 1] == sep[1]);
            lemma_indicator(text, limits, st, 0, Lexeme::FlowEntry)
        } else {
            st
        };
        let gap = if i > 0 {
            1int
        } else {
            0int
        };
        let done = lemma_scan_entry(text, limits, begun, gap, entry, floats);
        let next = lemma_scan_entries(text, limits, done, entries, i + 1, floats);
        let tail = entries_lexemes(entries, i + 1, shown) + end;
        lemma_reaches(text, limits, begun, done, next, entry_lexemes(entry, shown), tail);
        let both = entry_lexemes(entry, shown) + tail;
        if i > 0 {
            lemma_reaches(text, limits, st, begun, next, separator(i), both);
        } else {
            assert(separator(i) + both == both);
        }
        assert(entries_lexemes(entries, i, shown) + end == separator(i) + both);
        next
    }
}

/// The text of one entry.
spec fn entry_text(entry: (Node, Node), shown: Map<u64, Seq<char>>) -> Seq<char> {
    emitter::flow_text(entry.0, shown) + (seq![':', ' '] + emitter::flow_text(entry.1, shown))
}

/// The tokens of one entry.
spec fn entry_lexemes(entry: (Node, Node), shown: Map<u64, Seq<char>>) -> Seq<Lexeme> {
    lexemes(entry.0, shown) + (seq![Lexeme::Value] + lexemes(entry.1, shown))
}

/// One entry of a mapping.
#[verifier::rlimit(40)]
#[verifier::spinoff_prover]
proof fn lemma_scan_entry(
    text: Seq<char>,
    limits: Limits,
    st: ScanState,
    gap: int,
    entry: (Node, Node),
    floats: Floats,
) -> (next: ScanState)
    requires
        calm(st),
        0 <= st.pos,
        st.flow_depth > 0,
        survives(entry.0, floats),
        survives(entry.1, floats),
        0 <= gap <= 1,
        gap == 1 ==> st.pos < text.len() && text[st.pos] == ' ',
        leaf::holds(text, st.pos + gap, entry_text(entry, floats.texts)),
        flow_follows(text, st.pos + gap + entry_text(entry, floats.texts).len()),
    ensures
        reaches(
            text,
            limits,
            st,
            next,
            st.pos + gap + entry_text(entry, floats.texts).len(),
            st.flow_depth,
            entry_lexemes(entry, floats.texts),
        ),
    decreases entry, 1int,
{
    let shown = floats.texts;
    let key = emitter::flow_text(entry.0, shown);
    let colon = seq![':', ' '];
    let value = emitter::flow_text(entry.1, shown);
    leaf::lemma_holds(text, st.pos + gap, key, colon + value);
    let c = st.pos + gap + key.len();
    leaf::lemma_holds(text, c, colon, value);
    assert(text[c + 0] == colon[0]);
    assert(text[c + 1] == colon[1]);
    let keyed = lemma_scan(text, limits, st, gap, entry.0, floats);
    let split = lemma_indicator(text, limits, keyed, 0, Lexeme::Value);
    let done = lemma_scan(text, limits, split, 1, entry.1, floats);
    let after = seq![Lexeme::Value] + lexemes(entry.1, shown);
    lemma_reaches(
        text,
        limits,
        keyed,
        split,
        done,
        seq![Lexeme::Value],
        lexemes(entry.1, shown),
    );
    lemma_reaches(text, limits, st, keyed, done, lexemes(entry.0, shown), after);
    done
}

/// Behind an entry stands a comma or the closing brace.
proof fn lemma_entry_follow(
    text: Seq<char>,
    e: int,
    entries: Seq<(Node, Node)>,
    i: int,
    floats: Floats,
)
    requires
        0 < i <= entries.len(),
        leaf::holds(text, e, emitter::entries_text(entries, i, floats.texts) + seq!['}']),
    ensures
        flow_follows(text, e),
{
    let t = emitter::entries_text(entries, i, floats.texts) + seq!['}'];
    assert(text[e + 0] == t[0]);
    if i < entries.len() {
        assert(t[0] == emitter::separator(i)[0]);
    }
}

// ---------------------------------------------------------------------------
// Documents
// ---------------------------------------------------------------------------

/// Like [`calm`], but a key mark may have been left on the line before.
pub open spec fn resting(st: ScanState) -> bool {
    calm(ScanState { key: None, ..st })
}

/// From `st` the scanner gets to `next`, which rests at `pos`.
pub open spec fn comes_to_rest(
    text: Seq<char>,
    limits: Limits,
    st: ScanState,
    next: ScanState,
    pos: int,
    ks: Seq<Lexeme>,
) -> bool {
    &&& model::run(text, limits, st) == model::run(text, limits, next)
    &&& resting(next)
    &&& next.pos == pos
    &&& next.flow_depth == 0
    &&& kinds(next.out) == kinds(st.out) + ks
}

/// The root value of a document, up to the end of its line.
pub proof fn lemma_scan_root(
    text: Seq<char>,
    limits: Limits,
    st: ScanState,
    gap: int,
    n: Node,
    floats: Floats,
) -> (next: ScanState)
    requires
        calm(st),
        st.flow_depth == 0,
        0 <= st.pos,
        survives(n, floats),
        0 <= gap <= 1,
        gap == 1 ==> st.pos < text.len() && (text[st.pos] == ' ' || text[st.pos] == '\n'),
        leaf::holds(text, st.pos + gap, emitter::flow_text(n, floats.texts)),
        leaf::ends_document(text, st.pos + gap + emitter::flow_text(n, floats.texts).len()),
    ensures
        comes_to_rest(
            text,
            limits,
            st,
            next,
            st.pos + gap + emitter::flow_text(n, floats.texts).len(),
            lexemes(n, floats.texts),
        ),
{
    if n is Sequence || n is Mapping {
        lemma_scan(text, limits, st, gap, n, floats)
    } else {
        let at = arrived(text, st, gap);
        lemma_text_starts(text, at.pos, n, floats);
        lemma_short_gap(text, st, gap);
        lex::lemma_column_positive(text, at.pos);
        assert(model::unrolled(text, at, lex::indent_at(text, at.pos)) == at);
        let marked = model::key_marked(text, at);
        lemma_scalar_content(text, marked, n, floats);
        let p = model::content(text, marked)->Ok_0;
        let next = model::token_added(text, at.pos, p)->Ok_0;
        assert(model::fetch(text, limits, st) == Ok::<ScanState, Failure>(next));
        assert(kinds(next.out) == kinds(st.out) + lexemes(n, floats.texts));
        next
    }
}

/// A line break in front of `i` is skipped.
proof fn lemma_break_gap(text: Seq<char>, st: ScanState)
    requires
        resting(st),
        st.flow_depth == 0,
        0 <= st.pos < text.len(),
        text[st.pos] == '\n',
        st.pos + 1 == text.len() || token_starts(text, st.pos + 1),
    ensures
        model::after_gap(text, st) matches Ok(at) && at == (ScanState {
            pos: st.pos + 1,
            key_allowed: true,
            at_line_start: false,
            key: at.key,
            ..st
        }),
{
    reveal_with_fuel(model::skip_gap, 3);
}

/// The end of the input, right here or behind a line break.
pub proof fn lemma_scan_end(text: Seq<char>, limits: Limits, st: ScanState)
    requires
        resting(st),
        st.flow_depth == 0,
        0 <= st.pos,
        st.pos == text.len() || st.pos + 1 == text.len() && text[st.pos] == '\n',
    ensures
        model::run(text, limits, st) matches Ok(last) && kinds(last.out) == kinds(st.out) + seq![
            Lexeme::StreamEnd,
        ],
{
    if st.pos < text.len() {
        lemma_break_gap(text, st);
    }
    let at = model::after_gap(text, st)->Ok_0;
    lemma_end_step(text, limits, st, at);
}

/// The end of the input.
proof fn lemma_end_step(text: Seq<char>, limits: Limits, st: ScanState, at: ScanState)
    requires
        resting(st),
        resting(at),
        st.flow_depth == 0,
        at.flow_depth == 0,
        0 <= st.pos <= text.len(),
        at.pos == text.len(),
        at.out == st.out,
        model::after_gap(text, st) == Ok::<ScanState, Failure>(at),
    ensures
        model::run(text, limits, st) matches Ok(last) && kinds(last.out) == kinds(st.out) + seq![
            Lexeme::StreamEnd,
        ],
{
    lex::lemma_column_positive(text, at.pos);
    assert(model::unrolled(text, at, lex::indent_at(text, at.pos)) == at);
    let closed = ScanState { key: None, ..at };
    assert(model::unrolled(text, closed, -1) == closed);
    let last = model::end_step(text, at)->Ok_0;
    assert(model::fetch(text, limits, st) == Ok::<ScanState, Failure>(last));
    assert(model::run(text, limits, last) == Ok::<ScanState, Failure>(last));
    assert(kinds(last.out) == kinds(st.out) + seq![Lexeme::StreamEnd]);
}

/// A `---` marker, behind a line break or at the very start.
pub proof fn lemma_scan_marker(text: Seq<char>, limits: Limits, st: ScanState, gap: int) -> (next:
    ScanState)
    requires
        resting(st),
        st.flow_depth == 0,
        0 <= gap <= 1,
        0 <= st.pos,
        gap == 1 ==> text[st.pos] == '\n',
        gap == 0 ==> st.key is None,
        lex::marker_at(text, st.pos + gap, '-'),
    ensures
        reaches(text, limits, st, next, st.pos + gap + 3, 0, seq![Lexeme::DocumentStart]),
{
    let i = st.pos + gap;
    if gap == 1 {
        lemma_break_gap(text, st);
    } else {
        lemma_short_gap(text, st, 0);
    }
    let at = model::after_gap(text, st)->Ok_0;
    lex::lemma_column_positive(text, i);
    assert(model::unrolled(text, at, lex::indent_at(text, i)) == at);
    assert(model::key_marked(text, at) == at);
    assert(model::unrolled(text, at, -1) == at);
    let p = model::document_start(text, at);
    assert(model::content(text, at) == Ok::<Produced, Failure>(p));
    let next = model::token_added(text, i, p)->Ok_0;
    assert(model::fetch(text, limits, st) == Ok::<ScanState, Failure>(next));
    assert(kinds(next.out) == kinds(st.out) + seq![Lexeme::DocumentStart]);
    next
}

/// The first step.
pub proof fn lemma_scan_start(text: Seq<char>, limits: Limits) -> (next: ScanState)
    requires
        reader::byte_offset(text, text.len() as int) <= limits.max_input_bytes,
    ensures
        reaches(
            text,
            limits,
            model::initial_state(),
            next,
            0,
            0,
            seq![Lexeme::StreamStart],
        ),
{
    let st = model::initial_state();
    let next = model::start(text, limits, st)->Ok_0;
    assert(kinds(next.out) == kinds(st.out) + seq![Lexeme::StreamStart]);
    next
}

/// A value on a line of its own is scanned as its tokens, with or without the line
/// break at its end.
pub proof fn lemma_scan_document(text: Seq<char>, n: Node, floats: Floats, limits: Limits)
    requires
        survives(n, floats),
        text == emitter::flow_text(n, floats.texts) || text == emitter::document_text(
            n,
            floats.texts,
        ),
        reader::byte_offset(text, text.len() as int) <= limits.max_input_bytes,
    ensures
        model::tokens(text, limits) matches Ok(ts) && kinds(ts) == seq![Lexeme::StreamStart] + (
        lexemes(n, floats.texts) + seq![Lexeme::StreamEnd]),
{
    let begun = lemma_scan_start(text, limits);
    assert(leaf::holds(text, 0, emitter::flow_text(n, floats.texts)));
    let done = lemma_scan_root(text, limits, begun, 0, n, floats);
    lemma_scan_end(text, limits, done);
    let st = model::initial_state();
    let last = model::run(text, limits, st)->Ok_0;
    assert(kinds(last.out) == seq![Lexeme::StreamStart] + (lexemes(n, floats.texts) + seq![
        Lexeme::StreamEnd,
    ]));
}

/// The documents from document `i` on, each behind a `---` line, and the end of
/// the stream.
proof fn lemma_scan_documents(
    text: Seq<char>,
    limits: Limits,
    st: ScanState,
    gap: int,
    values: Seq<Node>,
    i: int,
    floats: Floats,
)
    requires
        resting(st),
        st.flow_depth == 0,
        0 <= st.pos,
        0 <= i <= values.len(),
        forall|j: int| 0 <= j < values.len() ==> survives(#[trigger] values[j], floats),
        gap == if i == 0 {
            0int
        } else {
            1
        },
        gap == 1 ==> st.pos < text.len() && text[st.pos] == '\n',
        gap == 0 ==> st.key is None,
        leaf::holds(text, st.pos + gap, emitter::stream_text(values, i, floats.texts)),
        text.len() == st.pos + gap + emitter::stream_text(values, i, floats.texts).len(),
    ensures
        model::run(text, limits, st) matches Ok(last) && kinds(last.out) == kinds(st.out) + (
        parse::stream_lexemes(values, i, floats.texts, true) + seq![Lexeme::StreamEnd]),
    decreases values.len() - i,
{
    let shown = floats.texts;
    let end = seq![Lexeme::StreamEnd];
    if i == values.len() {
        assert(parse::stream_lexemes(values, i, shown, true) + end == end);
        if gap == 1 {
            lemma_scan_end(text, limits, st);
        } else {
            let at = ScanState { at_line_start: false, ..st };
            assert(model::after_gap(text, st) == Ok::<ScanState, Failure>(at));
            lemma_end_step(text, limits, st, at);
        }
    } else {
        let n = values[i];
        assert(survives(n, floats));
        lemma_layout(text, st.pos + gap, values, i, shown);
        let marked = lemma_scan_marker(text, limits, st, gap);
        let done = lemma_scan_root(text, limits, marked, 1, n, floats);
        lemma_scan_documents(text, limits, done, 1, values, i + 1, floats);
        let last = model::run(text, limits, st)->Ok_0;
        let tail = parse::stream_lexemes(values, i + 1, shown, true) + end;
        lemma_document_kinds(values, i, shown, kinds(st.out), end);
        assert(kinds(last.out) == kinds(st.out) + seq![Lexeme::DocumentStart] + lexemes(n, shown)
            + tail);
    }
}

proof fn lemma_document_kinds(
    values: Seq<Node>,
    i: int,
    shown: Map<u64, Seq<char>>,
    before: Seq<Lexeme>,
    end: Seq<Lexeme>,
)
    requires
        0 <= i < values.len(),
    ensures
        before + seq![Lexeme::DocumentStart] + lexemes(values[i], shown) + (parse::stream_lexemes(
            values,
            i + 1,
            shown,
            true,
        ) + end) == before + (parse::stream_lexemes(values, i, shown, true) + end),
{
    let here = lexemes(values[i], shown);
    let rest = parse::stream_lexemes(values, i + 1, shown, true);
    assert(parse::stream_lexemes(values, i, shown, true) == seq![Lexeme::DocumentStart] + (here
        + rest));
    assert(before + seq![Lexeme::DocumentStart] + here + (rest + end) == before + (seq![
        Lexeme::DocumentStart,
    ] + (here + rest) + end));
}

/// Where the parts of the documents from document `i` on stand: a marker, a line
/// break, the value, the end of its line, and the next documents.
proof fn lemma_layout(
    text: Seq<char>,
    m: int,
    values: Seq<Node>,
    i: int,
    shown: Map<u64, Seq<char>>,
)
    requires
        0 <= i < values.len(),
        leaf::holds(text, m, emitter::stream_text(values, i, shown)),
        text.len() == m + emitter::stream_text(values, i, shown).len(),
    ensures
        lex::marker_at(text, m, '-'),
        text[m + 3] == '\n',
        leaf::holds(text, m + 4, emitter::flow_text(values[i], shown)),
        ({
            let e = m + 4 + emitter::flow_text(values[i], shown).len();
            &&& leaf::ends_document(text, e)
            &&& leaf::holds(text, e + 1, emitter::stream_text(values, i + 1, shown))
            &&& text.len() == e + 1 + emitter::stream_text(values, i + 1, shown).len()
        }),
{
    let line = emitter::flow_text(values[i], shown);
    let rest = emitter::stream_text(values, i + 1, shown);
    let dashes = "---\n"@;
    reveal_strlit("---\n");
    assert(emitter::stream_text(values, i, shown) == dashes + (line + (seq!['\n'] + rest)));
    leaf::lemma_holds(text, m, dashes, line + (seq!['\n'] + rest));
    leaf::lemma_holds(text, m + 4, line, seq!['\n'] + rest);
    let e = m + 4 + line.len();
    leaf::lemma_holds(text, e, seq!['\n'], rest);
    assert(text[e + 0] == seq!['\n'][0]);
    lemma_dashes(text, m);
    if i + 1 < values.len() {
        let more = emitter::document_text(values[i + 1], shown) + emitter::stream_text(
            values,
            i + 2,
            shown,
        );
        assert(rest == dashes + more);
        leaf::lemma_holds(text, e + 1, dashes, more);
        lemma_dashes(text, e + 1);
    }
}

/// A `---` line is a marker.
proof fn lemma_dashes(text: Seq<char>, m: int)
    requires
        leaf::holds(text, m, "---\n"@),
    ensures
        lex::marker_at(text, m, '-'),
        text[m + 3] == '\n',
{
    let dashes = "---\n"@;
    reveal_strlit("---\n");
    assert(text[m + 0] == dashes[0]);
    assert(text[m + 1] == dashes[1]);
    assert(text[m + 2] == dashes[2]);
    assert(text[m + 3] == dashes[3]);
}

/// Values written as a stream are scanned as their tokens.
pub proof fn lemma_scan_stream(values: Seq<Node>, floats: Floats, limits: Limits)
    requires
        forall|j: int| 0 <= j < values.len() ==> survives(#[trigger] values[j], floats),
        ({
            let text = emitter::stream_text(values, 0, floats.texts);
            reader::byte_offset(text, text.len() as int) <= limits.max_input_bytes
        }),
    ensures
        model::tokens(emitter::stream_text(values, 0, floats.texts), limits) matches Ok(ts)
            && kinds(ts) == seq![Lexeme::StreamStart] + (parse::stream_lexemes(
            values,
            0,
            floats.texts,
            true,
        ) + seq![Lexeme::StreamEnd]),
{
    let text = emitter::stream_text(values, 0, floats.texts);
    let begun = lemma_scan_start(text, limits);
    lemma_scan_documents(text, limits, begun, 0, values, 0, floats);
    let last = model::run(text, limits, model::initial_state())->Ok_0;
    let body = parse::stream_lexemes(values, 0, floats.texts, true) + seq![Lexeme::StreamEnd];
    assert(kinds(last.out) == seq![Lexeme::StreamStart] + body);
}

} // verus!
