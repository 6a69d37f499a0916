//! Events: the parser reads the tokens of a value as the events of that value.

use crate::event::{Ev, Happening};
use crate::node::Node;
use crate::parser::grammar;
use crate::parser::grammar::{Halt, Parsed};
use crate::roundtrip::scan;
use crate::scanner::token::{Lexeme, Tok};
use vstd::prelude::*;

verus! {

// ---------------------------------------------------------------------------
// The events of a value
// ---------------------------------------------------------------------------

/// The event of a scalar.
pub open spec fn scalar_happening(n: Node, shown: Map<u64, Seq<char>>) -> Happening {
    match scan::scalar_lexeme(n, shown) {
        Lexeme::Scalar { value, style } => Happening::Scalar {
            value,
            style,
            anchor: None,
            tag: None,
        },
        _ => Happening::StreamEnd,
    }
}

/// The events of a value.
pub open spec fn happenings(n: Node, shown: Map<u64, Seq<char>>) -> Seq<Happening>
    decreases n, 0int,
{
    match n {
        Node::Sequence(items) => seq![Happening::SequenceStart { anchor: None, tag: None }]
            + items_happenings(items, 0, shown) + seq![Happening::SequenceEnd],
        Node::Mapping(entries) => seq![Happening::MappingStart { anchor: None, tag: None }]
            + entries_happenings(entries, 0, shown) + seq![Happening::MappingEnd],
        _ => seq![scalar_happening(n, shown)],
    }
}

/// The events of the items from `i` on.
pub open spec fn items_happenings(items: Seq<Node>, i: int, shown: Map<u64, Seq<char>>) -> Seq<
    Happening,
>
    decreases items, items.len() - i,
{
    if 0 <= i < items.len() {
        happenings(items[i], shown) + items_happenings(items, i + 1, shown)
    } else {
        Seq::empty()
    }
}

/// The events of the entries from `i` on.
pub open spec fn entries_happenings(
    entries: Seq<(Node, Node)>,
    i: int,
    shown: Map<u64, Seq<char>>,
) -> Seq<Happening>
    decreases entries, entries.len() - i,
{
    if 0 <= i < entries.len() {
        happenings(entries[i].0, shown) + happenings(entries[i].1, shown) + entries_happenings(
            entries,
            i + 1,
            shown,
        )
    } else {
        Seq::empty()
    }
}

/// The kinds of events.
pub open spec fn kinds(evs: Seq<Ev>) -> Seq<Happening> {
    Seq::new(evs.len(), |i: int| evs[i].kind)
}

/// The collections of the value nest at most `room` levels deep.
pub open spec fn fits(n: Node, room: nat) -> bool
    decreases n,
{
    match n {
        Node::Sequence(items) => room > 0 && forall|i: int|
            0 <= i < items.len() ==> fits(#[trigger] items[i], (room - 1) as nat),
        Node::Mapping(entries) => room > 0 && forall|i: int|
            0 <= i < entries.len() ==> fits((#[trigger] entries[i]).0, (room - 1) as nat) && fits(
                entries[i].1,
                (room - 1) as nat,
            ),
        _ => true,
    }
}

// ---------------------------------------------------------------------------
// Parsing
// ---------------------------------------------------------------------------

/// Tokens of the kinds `ks` stand at `pos`.
pub open spec fn tokens_at(ts: Seq<Tok>, pos: int, ks: Seq<Lexeme>) -> bool {
    &&& 0 <= pos
    &&& pos + ks.len() <= ts.len()
    &&& forall|k: int| 0 <= k < ks.len() ==> ts[pos + k].kind == #[trigger] ks[k]
}

/// Where `a` and then `b` stand.
pub proof fn lemma_tokens_at(ts: Seq<Tok>, pos: int, a: Seq<Lexeme>, b: Seq<Lexeme>)
    requires
        tokens_at(ts, pos, a + b),
    ensures
        tokens_at(ts, pos, a),
        tokens_at(ts, pos + a.len(), b),
{
    assert forall|k: int| 0 <= k < a.len() implies ts[pos + k].kind == #[trigger] a[k] by {
        assert((a + b)[k] == a[k]);
    }
    assert forall|k: int| 0 <= k < b.len() implies ts[pos + a.len() + k].kind
        == #[trigger] b[k] by {
        assert((a + b)[a.len() + k] == b[k]);
    }
}

/// The parse gave events of the kinds `hs` and got to `at`.
pub open spec fn gives(parsed: Parsed, hs: Seq<Happening>, at: int) -> bool {
    parsed matches Ok((evs, to)) && to == at && kinds(evs) == hs
}

/// The kinds of two stretches of events.
proof fn lemma_kinds(a: Seq<Ev>, b: Seq<Ev>)
    ensures
        kinds(a + b) == kinds(a) + kinds(b),
{
    assert(kinds(a + b) == kinds(a) + kinds(b));
}

/// What joins two parses.
proof fn lemma_gives(events: Seq<Ev>, rest: Parsed, hs: Seq<Happening>, at: int)
    requires
        gives(rest, hs, at),
    ensures
        gives(grammar::joined(events, rest), kinds(events) + hs, at),
{
    lemma_kinds(events, rest->Ok_0.0);
}

/// The first token of a value.
pub proof fn lemma_first(ts: Seq<Tok>, pos: int, n: Node, shown: Map<u64, Seq<char>>)
    requires
        tokens_at(ts, pos, scan::lexemes(n, shown)),
    ensures
        scan::lexemes(n, shown).len() > 0,
        grammar::kind_at(ts, pos) == Some(scan::lexemes(n, shown)[0]),
        scan::lexemes(n, shown)[0] == match n {
            Node::Sequence(_) => Lexeme::FlowSequenceStart,
            Node::Mapping(_) => Lexeme::FlowMappingStart,
            _ => scan::scalar_lexeme(n, shown),
        },
        grammar::properties(ts, pos, grammar::bare()) == Ok::<(grammar::Properties, int), Halt>(
            (grammar::bare(), pos),
        ),
        grammar::is_collection(ts, pos) == (n is Sequence || n is Mapping),
{
    assert(ts[pos + 0].kind == scan::lexemes(n, shown)[0]);
}

/// The tokens of a value are parsed as its events.
pub proof fn lemma_parse(ts: Seq<Tok>, pos: int, room: nat, n: Node, shown: Map<u64, Seq<char>>)
    requires
        tokens_at(ts, pos, scan::lexemes(n, shown)),
        fits(n, room),
    ensures
        gives(
            grammar::node(ts, pos, room),
            happenings(n, shown),
            pos + scan::lexemes(n, shown).len(),
        ),
    decreases n, 0int,
{
    lemma_first(ts, pos, n, shown);
    let inner = (room - 1) as nat;
    match n {
        Node::Sequence(items) => {
            let body = scan::items_lexemes(items, 0, shown) + seq![Lexeme::FlowSequenceEnd];
            assert(scan::lexemes(n, shown) == seq![Lexeme::FlowSequenceStart] + body);
            lemma_tokens_at(ts, pos, seq![Lexeme::FlowSequenceStart], body);
            assert(scan::items_lexemes(items, 0, shown) == items_behind(items, 0, shown));
            lemma_parse_items(ts, pos + 1, inner, items, 0, shown);
            let open = grammar::ev(ts, Happening::SequenceStart { anchor: None, tag: None }, pos);
            let rest = items_happenings(items, 0, shown) + seq![Happening::SequenceEnd];
            lemma_gives(
                open,
                grammar::flow_entries(ts, pos + 1, inner),
                rest,
                pos + 1 + body.len(),
            );
            assert(kinds(open) + rest == happenings(n, shown));
        },
        Node::Mapping(entries) => {
            let body = scan::entries_lexemes(entries, 0, shown) + seq![Lexeme::FlowMappingEnd];
            assert(scan::lexemes(n, shown) == seq![Lexeme::FlowMappingStart] + body);
            lemma_tokens_at(ts, pos, seq![Lexeme::FlowMappingStart], body);
            assert(scan::entries_lexemes(entries, 0, shown) == entries_behind(entries, 0, shown));
            lemma_parse_entries(ts, pos + 1, inner, entries, 0, shown);
            let open = grammar::ev(ts, Happening::MappingStart { anchor: None, tag: None }, pos);
            let rest = entries_happenings(entries, 0, shown) + seq![Happening::MappingEnd];
            lemma_gives(
                open,
                grammar::flow_pairs(ts, pos + 1, inner),
                rest,
                pos + 1 + body.len(),
            );
            assert(kinds(open) + rest == happenings(n, shown));
        },
        _ => {
            let evs = grammar::ev(ts, scalar_happening(n, shown), pos);
            assert(kinds(evs) == happenings(n, shown));
        },
    }
}

/// The items from `i` on, up to the end of the sequence; the separator before
/// item `i` is passed.
#[verifier::rlimit(30)]
#[verifier::spinoff_prover]
proof fn lemma_parse_items(
    ts: Seq<Tok>,
    pos: int,
    room: nat,
    items: Seq<Node>,
    i: int,
    shown: Map<u64, Seq<char>>,
)
    requires
        0 <= i <= items.len(),
        i > 0 ==> i < items.len(),
        forall|j: int| 0 <= j < items.len() ==> fits(#[trigger] items[j], room),
        tokens_at(ts, pos, items_behind(items, i, shown) + seq![Lexeme::FlowSequenceEnd]),
    ensures
        gives(
            grammar::flow_entries(ts, pos, room),
            items_happenings(items, i, shown) + seq![Happening::SequenceEnd],
            pos + items_behind(items, i, shown).len() + 1,
        ),
    decreases items, items.len() - i,
{
    let end = seq![Lexeme::FlowSequenceEnd];
    if i == items.len() {
        assert(items_behind(items, i, shown) + end == end);
        assert(ts[pos + 0].kind == end[0]);
        let evs = grammar::ev(ts, Happening::SequenceEnd, pos);
        assert(kinds(evs) == items_happenings(items, i, shown) + seq![Happening::SequenceEnd]);
    } else {
        let item = items[i];
        let here = scan::lexemes(item, shown);
        let rest = scan::items_lexemes(items, i + 1, shown) + end;
        assert(items_behind(items, i, shown) + end == here + rest);
        lemma_tokens_at(ts, pos, here, rest);
        assert(fits(item, room));
        lemma_parse(ts, pos, room, item, shown);
        lemma_first(ts, pos, item, shown);
        let at = pos + here.len();
        assert(ts[at + 0].kind == rest[0]);
        let evs = grammar::node(ts, pos, room)->Ok_0.0;
        assert(grammar::flow_entry(ts, pos, room) == Ok::<(Seq<Ev>, int), Halt>((evs, at)));
        if i + 1 < items.len() {
            let behind = items_behind(items, i + 1, shown) + end;
            assert(rest == seq![Lexeme::FlowEntry] + behind);
            lemma_tokens_at(ts, at, seq![Lexeme::FlowEntry], behind);
            lemma_parse_items(ts, at + 1, room, items, i + 1, shown);
            let more = items_happenings(items, i + 1, shown) + seq![Happening::SequenceEnd];
            lemma_gives(
                evs,
                grammar::flow_entries(ts, at + 1, room),
                more,
                at + 1 + behind.len(),
            );
            assert(kinds(evs) + more == items_happenings(items, i, shown) + seq![
                Happening::SequenceEnd,
            ]);
        } else {
            assert(rest == end);
            let close = grammar::ev(ts, Happening::SequenceEnd, at);
            assert(items_happenings(items, i + 1, shown) == Seq::<Happening>::empty());
            assert(items_happenings(items, i, shown) == happenings(item, shown));
            lemma_kinds(evs, close);
            assert(kinds(evs + close) == items_happenings(items, i, shown) + seq![
                Happening::SequenceEnd,
            ]);
        }
    }
}

/// The tokens of the items from `i` on without the separator before item `i`.
spec fn items_behind(items: Seq<Node>, i: int, shown: Map<u64, Seq<char>>) -> Seq<Lexeme> {
    if 0 <= i < items.len() {
        scan::lexemes(items[i], shown) + scan::items_lexemes(items, i + 1, shown)
    } else {
        Seq::empty()
    }
}

/// The tokens of the entries from `i` on without the separator before entry `i`.
spec fn entries_behind(entries: Seq<(Node, Node)>, i: int, shown: Map<u64, Seq<char>>) -> Seq<
    Lexeme,
> {
    if 0 <= i < entries.len() {
        scan::lexemes(entries[i].0, shown) + (seq![Lexeme::Value] + (scan::lexemes(
            entries[i].1,
            shown,
        ) + scan::entries_lexemes(entries, i + 1, shown)))
    } else {
        Seq::empty()
    }
}

/// The tokens of one entry.
spec fn pair_lexemes(entry: (Node, Node), shown: Map<u64, Seq<char>>) -> Seq<Lexeme> {
    scan::lexemes(entry.0, shown) + (seq![Lexeme::Value] + scan::lexemes(entry.1, shown))
}

/// One entry of a mapping.
proof fn lemma_parse_pair(
    ts: Seq<Tok>,
    pos: int,
    room: nat,
    entry: (Node, Node),
    shown: Map<u64, Seq<char>>,
)
    requires
        fits(entry.0, room),
        fits(entry.1, room),
        tokens_at(ts, pos, pair_lexemes(entry, shown)),
    ensures
        gives(
            grammar::flow_pair(ts, pos, room),
            happenings(entry.0, shown) + happenings(entry.1, shown),
            pos + pair_lexemes(entry, shown).len(),
        ),
        pair_lexemes(entry, shown).len() > 0,
        grammar::kind_at(ts, pos) != Some(Lexeme::FlowMappingEnd),
        grammar::kind_at(ts, pos) != Some(Lexeme::FlowEntry),
    decreases entry, 1int,
{
    let key = scan::lexemes(entry.0, shown);
    let value = scan::lexemes(entry.1, shown);
    let colon = seq![Lexeme::Value];
    lemma_tokens_at(ts, pos, key, colon + value);
    let c = pos + key.len();
    lemma_tokens_at(ts, c, colon, value);
    assert(ts[c + 0].kind == colon[0]);
    lemma_parse(ts, pos, room, entry.0, shown);
    lemma_first(ts, pos, entry.0, shown);
    lemma_parse(ts, c + 1, room, entry.1, shown);
    lemma_first(ts, c + 1, entry.1, shown);
    lemma_gives(
        grammar::node(ts, pos, room)->Ok_0.0,
        grammar::flow_value(ts, c, room),
        happenings(entry.1, shown),
        c + 1 + value.len(),
    );
}

/// The entries from `i` on, up to the end of the mapping; the separator before
/// entry `i` is passed.
#[verifier::rlimit(30)]
#[verifier::spinoff_prover]
proof fn lemma_parse_entries(
    ts: Seq<Tok>,
    pos: int,
    room: nat,
    entries: Seq<(Node, Node)>,
    i: int,
    shown: Map<u64, Seq<char>>,
)
    requires
        0 <= i <= entries.len(),
        i > 0 ==> i < entries.len(),
        forall|j: int|
            0 <= j < entries.len() ==> fits((#[trigger] entries[j]).0, room) && fits(
                entries[j].1,
                room,
            ),
        tokens_at(ts, pos, entries_behind(entries, i, shown) + seq![Lexeme::FlowMappingEnd]),
    ensures
        gives(
            grammar::flow_pairs(ts, pos, room),
            entries_happenings(entries, i, shown) + seq![Happening::MappingEnd],
            pos + entries_behind(entries, i, shown).len() + 1,
        ),
    decreases entries, entries.len() - i,
{
    let end = seq![Lexeme::FlowMappingEnd];
    if i == entries.len() {
        assert(entries_behind(entries, i, shown) + end == end);
        assert(ts[pos + 0].kind == end[0]);
        let evs = grammar::ev(ts, Happening::MappingEnd, pos);
        assert(kinds(evs) == entries_happenings(entries, i, shown) + seq![Happening::MappingEnd]);
    } else {
        let entry = entries[i];
        let here = pair_lexemes(entry, shown);
        let rest = scan::entries_lexemes(entries, i + 1, shown) + end;
        assert(entries_behind(entries, i, shown) + end == here + rest);
        lemma_tokens_at(ts, pos, here, rest);
        assert(fits(entry.0, room) && fits(entry.1, room));
        assert(decreases_to!(entries => entry));
        lemma_parse_pair(ts, pos, room, entry, shown);
        let at = pos + here.len();
        assert(ts[at + 0].kind == rest[0]);
        let evs = grammar::flow_pair(ts, pos, room)->Ok_0.0;
        if i + 1 < entries.len() {
            let behind = entries_behind(entries, i + 1, shown) + end;
            assert(rest == seq![Lexeme::FlowEntry] + behind);
            lemma_tokens_at(ts, at, seq![Lexeme::FlowEntry], behind);
            lemma_parse_entries(ts, at + 1, room, entries, i + 1, shown);
            let more = entries_happenings(entries, i + 1, shown) + seq![Happening::MappingEnd];
            lemma_gives(
                evs,
                grammar::flow_pairs(ts, at + 1, room),
                more,
                at + 1 + behind.len(),
            );
            assert(kinds(evs) + more == entries_happenings(entries, i, shown) + seq![
                Happening::MappingEnd,
            ]);
        } else {
            assert(rest == end);
            let close = grammar::ev(ts, Happening::MappingEnd, at);
            let pair = happenings(entry.0, shown) + happenings(entry.1, shown);
            assert(entries_happenings(entries, i + 1, shown) == Seq::<Happening>::empty());
            assert(entries_happenings(entries, i, shown) == pair);
            lemma_kinds(evs, close);
            assert(kinds(evs + close) == entries_happenings(entries, i, shown) + seq![
                Happening::MappingEnd,
            ]);
        }
    }
}

// ---------------------------------------------------------------------------
// Documents
// ---------------------------------------------------------------------------

/// The tokens of documents from document `i` on; `explicit` says that each has a
/// `---` marker.
pub open spec fn stream_lexemes(
    values: Seq<Node>,
    i: int,
    shown: Map<u64, Seq<char>>,
    explicit: bool,
) -> Seq<Lexeme>
    decreases values.len() - i,
{
    if 0 <= i < values.len() {
        marker(explicit) + (scan::lexemes(values[i], shown) + stream_lexemes(
            values,
            i + 1,
            shown,
            explicit,
        ))
    } else {
        Seq::empty()
    }
}

/// The marker of a document, if it has one.
pub open spec fn marker(explicit: bool) -> Seq<Lexeme> {
    if explicit {
        seq![Lexeme::DocumentStart]
    } else {
        Seq::empty()
    }
}

/// The events of one document.
pub open spec fn document_happenings(n: Node, shown: Map<u64, Seq<char>>) -> Seq<Happening> {
    seq![Happening::DocumentStart] + (happenings(n, shown) + seq![Happening::DocumentEnd])
}

/// The events of documents from document `i` on.
pub open spec fn stream_happenings(values: Seq<Node>, i: int, shown: Map<u64, Seq<char>>) -> Seq<
    Happening,
>
    decreases values.len() - i,
{
    if 0 <= i < values.len() {
        document_happenings(values[i], shown) + stream_happenings(values, i + 1, shown)
    } else {
        Seq::empty()
    }
}

/// One document, followed by the end of the stream or by a `---` marker.
proof fn lemma_parse_document(
    ts: Seq<Tok>,
    pos: int,
    room: nat,
    n: Node,
    shown: Map<u64, Seq<char>>,
    explicit: bool,
)
    requires
        tokens_at(ts, pos, marker(explicit) + scan::lexemes(n, shown)),
        fits(n, room),
        ({
            let next = grammar::kind_at(
                ts,
                pos + marker(explicit).len() + scan::lexemes(n, shown).len(),
            );
            next == Some(Lexeme::StreamEnd) || next == Some(Lexeme::DocumentStart)
        }),
    ensures
        gives(
            grammar::document(ts, pos, room),
            document_happenings(n, shown),
            pos + marker(explicit).len() + scan::lexemes(n, shown).len(),
        ),
        scan::lexemes(n, shown).len() > 0,
        ({
            let first = grammar::kind_at(ts, pos);
            first is Some && first != Some(Lexeme::StreamEnd) && first != Some(Lexeme::DocumentEnd)
        }),
{
    let from = pos + marker(explicit).len();
    let ls = scan::lexemes(n, shown);
    lemma_tokens_at(ts, pos, marker(explicit), ls);
    if explicit {
        assert(ts[pos + 0].kind == marker(explicit)[0]);
    }
    lemma_parse(ts, from, room, n, shown);
    lemma_first(ts, from, n, shown);
    let at = from + ls.len();
    let events = grammar::node(ts, from, room)->Ok_0.0;
    assert(grammar::root(ts, from, room) == grammar::node(ts, from, room));
    let open = grammar::ev(ts, Happening::DocumentStart, pos);
    let close = grammar::ev(ts, Happening::DocumentEnd, at);
    assert(kinds(open + events + close) == document_happenings(n, shown));
}

/// The documents from document `i` on, up to the end of the stream.
pub proof fn lemma_parse_documents(
    ts: Seq<Tok>,
    pos: int,
    room: nat,
    values: Seq<Node>,
    i: int,
    shown: Map<u64, Seq<char>>,
    explicit: bool,
)
    requires
        0 <= i <= values.len(),
        explicit || values.len() <= 1,
        forall|j: int| 0 <= j < values.len() ==> fits(#[trigger] values[j], room),
        tokens_at(
            ts,
            pos,
            stream_lexemes(values, i, shown, explicit) + seq![Lexeme::StreamEnd],
        ),
    ensures
        gives(
            grammar::documents(ts, pos, room),
            stream_happenings(values, i, shown) + seq![Happening::StreamEnd],
            pos + stream_lexemes(values, i, shown, explicit).len() + 1,
        ),
    decreases values.len() - i,
{
    let end = seq![Lexeme::StreamEnd];
    if i == values.len() {
        assert(stream_lexemes(values, i, shown, explicit) + end == end);
        assert(ts[pos + 0].kind == end[0]);
        let close = grammar::ev(ts, Happening::StreamEnd, pos);
        assert(kinds(close) == stream_happenings(values, i, shown) + seq![Happening::StreamEnd]);
    } else {
        let n = values[i];
        let here = marker(explicit) + scan::lexemes(n, shown);
        let rest = stream_lexemes(values, i + 1, shown, explicit) + end;
        assert(stream_lexemes(values, i, shown, explicit) + end == here + rest);
        lemma_tokens_at(ts, pos, here, rest);
        let at = pos + here.len();
        assert(ts[at + 0].kind == rest[0]);
        assert(fits(n, room));
        lemma_parse_document(ts, pos, room, n, shown, explicit);
        lemma_parse_documents(ts, at, room, values, i + 1, shown, explicit);
        let events = grammar::document(ts, pos, room)->Ok_0.0;
        let more = stream_happenings(values, i + 1, shown) + seq![Happening::StreamEnd];
        lemma_gives(events, grammar::documents(ts, at, room), more, at + rest.len());
        assert(kinds(events) + more == stream_happenings(values, i, shown) + seq![
            Happening::StreamEnd,
        ]);
    }
}

/// A whole stream of documents.
pub proof fn lemma_parse_stream(
    ts: Seq<Tok>,
    room: nat,
    values: Seq<Node>,
    shown: Map<u64, Seq<char>>,
    explicit: bool,
)
    requires
        explicit || values.len() <= 1,
        forall|j: int| 0 <= j < values.len() ==> fits(#[trigger] values[j], room),
        scan::kinds(ts) == seq![Lexeme::StreamStart] + (stream_lexemes(values, 0, shown, explicit)
            + seq![Lexeme::StreamEnd]),
    ensures
        grammar::stream(ts, room) matches Ok(evs) && kinds(evs) == seq![Happening::StreamStart] + (
        stream_happenings(values, 0, shown) + seq![Happening::StreamEnd]),
{
    let body = stream_lexemes(values, 0, shown, explicit) + seq![Lexeme::StreamEnd];
    let all = seq![Lexeme::StreamStart] + body;
    assert forall|k: int| 0 <= k < all.len() implies ts[0 + k].kind == #[trigger] all[k] by {
        assert(scan::kinds(ts)[k] == all[k]);
    }
    lemma_tokens_at(ts, 0, seq![Lexeme::StreamStart], body);
    assert(ts[0].kind == all[0]);
    lemma_parse_documents(ts, 1, room, values, 0, shown, explicit);
    let events = grammar::documents(ts, 1, room)->Ok_0.0;
    let open = grammar::ev(ts, Happening::StreamStart, 0);
    assert(kinds(open + events) == seq![Happening::StreamStart] + kinds(events));
}

} // verus!
