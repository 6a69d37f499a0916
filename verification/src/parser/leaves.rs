//! The scalars and aliases of the events are those of the tokens, in order.

use crate::error::Span;
use crate::event::{Ev, Happening};
use crate::meta::ScalarStyle;
use crate::options::ParseOptions;
use crate::parser;
use crate::parser::grammar;
use crate::parser::grammar::Parsed;
use crate::parser::shape;
use crate::scanner;
use crate::scanner::token::{Lexeme, Tok};
use vstd::prelude::*;

verus! {

/// A scalar or an alias, and where it stands.
pub enum Leaf {
    Scalar { value: Seq<char>, style: ScalarStyle, span: Span },
    Alias { name: Seq<char>, span: Span },
}

/// The leaf that a scalar is. An empty plain scalar, which stands for a node that is
/// not there, is none.
pub open spec fn scalar_leaf(value: Seq<char>, style: ScalarStyle, span: Span) -> Seq<Leaf> {
    if value.len() == 0 && style == ScalarStyle::Plain {
        Seq::empty()
    } else {
        seq![Leaf::Scalar { value, style, span }]
    }
}

/// The leaf that the token at `pos` is, if it is one.
pub open spec fn token_leaf(ts: Seq<Tok>, pos: int) -> Seq<Leaf> {
    match grammar::kind_at(ts, pos) {
        Some(Lexeme::Scalar { value, style }) => scalar_leaf(value, style, ts[pos].span),
        Some(Lexeme::Alias(name)) => seq![Leaf::Alias { name, span: ts[pos].span }],
        _ => Seq::empty(),
    }
}

/// The leaves among the tokens from `pos` to `end`.
pub open spec fn token_leaves(ts: Seq<Tok>, pos: int, end: int) -> Seq<Leaf>
    decreases end - pos,
{
    if pos >= end {
        Seq::empty()
    } else {
        token_leaf(ts, pos) + token_leaves(ts, pos + 1, end)
    }
}

/// The leaf that an event is, if it is one.
pub open spec fn event_leaf(e: Ev) -> Seq<Leaf> {
    match e.kind {
        Happening::Scalar { value, style, .. } => scalar_leaf(value, style, e.span),
        Happening::Alias(name) => seq![Leaf::Alias { name, span: e.span }],
        _ => Seq::empty(),
    }
}

/// The leaves among events.
pub open spec fn event_leaves(evs: Seq<Ev>) -> Seq<Leaf>
    decreases evs.len(),
{
    if evs.len() == 0 {
        Seq::empty()
    } else {
        event_leaves(evs.drop_last()) + event_leaf(evs.last())
    }
}

proof fn lemma_token_leaves(ts: Seq<Tok>, pos: int, middle: int, end: int)
    requires
        pos <= middle <= end,
    ensures
        token_leaves(ts, pos, end) == token_leaves(ts, pos, middle) + token_leaves(ts, middle, end),
    decreases middle - pos,
{
    let rest = token_leaves(ts, middle, end);
    if pos < middle {
        lemma_token_leaves(ts, pos + 1, middle, end);
        let front = token_leaves(ts, pos + 1, middle);
        assert(token_leaf(ts, pos) + (front + rest) == token_leaf(ts, pos) + front + rest);
    } else {
        assert(Seq::<Leaf>::empty() + rest == rest);
    }
}

proof fn lemma_event_leaves(a: Seq<Ev>, b: Seq<Ev>)
    ensures
        event_leaves(a + b) == event_leaves(a) + event_leaves(b),
    decreases b.len(),
{
    if b.len() == 0 {
        assert(a + b == a);
        assert(event_leaves(a) + Seq::<Leaf>::empty() == event_leaves(a));
    } else {
        lemma_event_leaves(a, b.drop_last());
        assert((a + b).drop_last() == a + b.drop_last());
        let front = event_leaves(b.drop_last());
        let last = event_leaf(b.last());
        assert(event_leaves(a) + front + last == event_leaves(a) + (front + last));
    }
}

/// One event.
proof fn lemma_single(ts: Seq<Tok>, kind: Happening, pos: int)
    ensures
        event_leaves(grammar::ev(ts, kind, pos)) == event_leaf(grammar::ev(ts, kind, pos)[0]),
{
    let evs = grammar::ev(ts, kind, pos);
    assert(evs.drop_last() == Seq::<Ev>::empty());
    assert(event_leaves(evs.drop_last()) == Seq::<Leaf>::empty());
    assert(Seq::<Leaf>::empty() + event_leaf(evs[0]) == event_leaf(evs[0]));
}

/// One token.
proof fn lemma_token(ts: Seq<Tok>, pos: int)
    ensures
        token_leaves(ts, pos, pos + 1) == token_leaf(ts, pos),
{
    assert(token_leaves(ts, pos + 1, pos + 1) == Seq::<Leaf>::empty());
    assert(token_leaf(ts, pos) + Seq::<Leaf>::empty() == token_leaf(ts, pos));
}

/// An empty node is no leaf.
proof fn lemma_empty(ts: Seq<Tok>, pos: int, props: grammar::Properties)
    ensures
        event_leaves(grammar::empty_node(ts, pos, props)) == Seq::<Leaf>::empty(),
{
    let evs = grammar::empty_node(ts, pos, props);
    lemma_single(ts, evs[0].kind, pos);
    assert(evs == grammar::ev(ts, evs[0].kind, pos));
}

/// What a parse from `pos` gave holds the leaves that it passed over.
pub open spec fn carries(parsed: Parsed, ts: Seq<Tok>, pos: int) -> bool {
    parsed matches Ok((part, at)) ==> pos <= at && event_leaves(part) == token_leaves(ts, pos, at)
}

/// Events in front of the rest.
proof fn lemma_joined(ts: Seq<Tok>, pos: int, middle: int, front: Seq<Ev>, rest: Parsed)
    requires
        pos <= middle,
        event_leaves(front) == token_leaves(ts, pos, middle),
        carries(rest, ts, middle),
    ensures
        carries(grammar::joined(front, rest), ts, pos),
{
    if let Ok((more, at)) = rest {
        lemma_event_leaves(front, more);
        lemma_token_leaves(ts, pos, middle, at);
    }
}

/// An event that is no leaf behind others, over a token that is none either.
proof fn lemma_closed(ts: Seq<Tok>, pos: int, at: int, front: Seq<Ev>, kind: Happening, next: int)
    requires
        pos <= at <= next <= at + 1,
        event_leaves(front) == token_leaves(ts, pos, at),
        kind is SequenceEnd || kind is MappingEnd || kind is DocumentEnd || kind is StreamEnd,
        next > at ==> token_leaf(ts, at) == Seq::<Leaf>::empty(),
    ensures
        event_leaves(front + grammar::ev(ts, kind, at)) == token_leaves(ts, pos, next),
        event_leaves(grammar::ev(ts, kind, at)) == token_leaves(ts, at, next),
{
    let none = Seq::<Leaf>::empty();
    lemma_single(ts, kind, at);
    lemma_event_leaves(front, grammar::ev(ts, kind, at));
    lemma_token(ts, at);
    lemma_token_leaves(ts, pos, at, next);
    assert(token_leaves(ts, pos, at) + none == token_leaves(ts, pos, at));
}

/// A token that is no leaf in front of what a parse passed over.
proof fn lemma_passed(ts: Seq<Tok>, pos: int, parsed: Parsed)
    requires
        token_leaf(ts, pos) == Seq::<Leaf>::empty(),
        carries(parsed, ts, pos + 1),
    ensures
        carries(parsed, ts, pos),
{
    if let Ok((part, at)) = parsed {
        lemma_token(ts, pos);
        lemma_token_leaves(ts, pos, pos + 1, at);
        assert(Seq::<Leaf>::empty() + token_leaves(ts, pos + 1, at) == token_leaves(
            ts,
            pos + 1,
            at,
        ));
    }
}

/// An opening event and its token, which are no leaves.
proof fn lemma_opened(ts: Seq<Tok>, at: int, kind: Happening, next: int, rest: Parsed)
    requires
        at <= next <= at + 1,
        event_leaf(grammar::ev(ts, kind, at)[0]) == Seq::<Leaf>::empty(),
        next > at ==> token_leaf(ts, at) == Seq::<Leaf>::empty(),
        carries(rest, ts, next),
    ensures
        carries(grammar::joined(grammar::ev(ts, kind, at), rest), ts, at),
{
    lemma_single(ts, kind, at);
    lemma_token(ts, at);
    lemma_joined(ts, at, next, grammar::ev(ts, kind, at), rest);
}

/// Properties are no leaves.
proof fn lemma_properties(ts: Seq<Tok>, pos: int, props: grammar::Properties)
    ensures
        grammar::properties(ts, pos, props) matches Ok((_, at)) ==> pos <= at && token_leaves(
            ts,
            pos,
            at,
        ) == Seq::<Leaf>::empty(),
    decreases grammar::left(ts, pos),
{
    match grammar::kind_at(ts, pos) {
        Some(Lexeme::Anchor(name)) => {
            if props.anchor is None {
                let more = grammar::Properties { anchor: Some(name), ..props };
                lemma_properties(ts, pos + 1, more);
            }
        },
        Some(Lexeme::Tag(tag)) => {
            if props.tag is None {
                let more = grammar::Properties { tag: Some(tag), ..props };
                lemma_properties(ts, pos + 1, more);
            }
        },
        _ => {},
    }
}

proof fn lemma_leaf(ts: Seq<Tok>, at: int, props: grammar::Properties)
    requires
        !grammar::starts_collection(grammar::kind_at(ts, at)),
    ensures
        carries(grammar::leaf(ts, at, props), ts, at),
{
    lemma_token(ts, at);
    lemma_empty(ts, at, props);
    if let Ok((part, _)) = grammar::leaf(ts, at, props) {
        lemma_single(ts, part[0].kind, at);
        assert(part == grammar::ev(ts, part[0].kind, at));
    }
}

proof fn lemma_node(ts: Seq<Tok>, pos: int, room: nat)
    ensures
        carries(grammar::node(ts, pos, room), ts, pos),
    decreases room, 0int, 0int,
{
    lemma_properties(ts, pos, grammar::bare());
    grammar::lemma_past_properties(ts, pos, grammar::bare());
    if let Ok((props, at)) = grammar::properties(ts, pos, grammar::bare()) {
        if grammar::starts_collection(grammar::kind_at(ts, at)) {
            if room > 0 {
                lemma_collection(ts, at, props, (room - 1) as nat);
            }
        } else {
            lemma_leaf(ts, at, props);
        }
        if let Ok((part, to)) = grammar::node(ts, pos, room) {
            lemma_token_leaves(ts, pos, at, to);
            assert(Seq::<Leaf>::empty() + token_leaves(ts, at, to) == token_leaves(ts, at, to));
        }
    }
}

proof fn lemma_collection(ts: Seq<Tok>, at: int, props: grammar::Properties, room: nat)
    requires
        grammar::starts_collection(grammar::kind_at(ts, at)),
    ensures
        carries(grammar::collection(ts, at, props, room), ts, at),
    decreases room, 4int, 0int,
{
    let sequence = Happening::SequenceStart { anchor: props.anchor, tag: props.tag };
    let mapping = Happening::MappingStart { anchor: props.anchor, tag: props.tag };
    match grammar::kind_at(ts, at) {
        Some(Lexeme::BlockSequenceStart) => {
            lemma_block_entries(ts, at + 1, room);
            lemma_opened(ts, at, sequence, at + 1, grammar::block_entries(ts, at + 1, room));
        },
        Some(Lexeme::BlockMappingStart) => {
            lemma_block_pairs(ts, at + 1, room);
            lemma_opened(ts, at, mapping, at + 1, grammar::block_pairs(ts, at + 1, room));
        },
        Some(Lexeme::FlowSequenceStart) => {
            lemma_flow_entries(ts, at + 1, room);
            lemma_opened(ts, at, sequence, at + 1, grammar::flow_entries(ts, at + 1, room));
        },
        Some(Lexeme::FlowMappingStart) => {
            lemma_flow_pairs(ts, at + 1, room);
            lemma_opened(ts, at, mapping, at + 1, grammar::flow_pairs(ts, at + 1, room));
        },
        _ => {
            lemma_indentless_entries(ts, at, room);
            lemma_opened(ts, at, sequence, at, grammar::indentless_entries(ts, at, room));
        },
    }
}

proof fn lemma_node_unless(ts: Seq<Tok>, pos: int, room: nat, empty: bool)
    ensures
        carries(grammar::node_unless(ts, pos, room, empty), ts, pos),
    decreases room, 1int, 0int,
{
    lemma_node(ts, pos, room);
    lemma_empty(ts, pos, grammar::bare());
}

proof fn lemma_block_entries(ts: Seq<Tok>, pos: int, room: nat)
    ensures
        carries(grammar::block_entries(ts, pos, room), ts, pos),
    decreases room, 3int, grammar::left(ts, pos),
{
    match grammar::kind_at(ts, pos) {
        Some(Lexeme::BlockEntry) => {
            let next = grammar::kind_at(ts, pos + 1);
            let empty = next == Some(Lexeme::BlockEntry) || next == Some(Lexeme::BlockEnd);
            let parsed = grammar::node_unless(ts, pos + 1, room, empty);
            lemma_node_unless(ts, pos + 1, room, empty);
            lemma_passed(ts, pos, parsed);
            if let Ok((entry, at)) = parsed {
                lemma_block_entries(ts, at, room);
                lemma_joined(ts, pos, at, entry, grammar::block_entries(ts, at, room));
            }
        },
        Some(Lexeme::BlockEnd) => {
            lemma_closed(ts, pos, pos, Seq::empty(), Happening::SequenceEnd, pos + 1);
        },
        _ => {},
    }
}

proof fn lemma_indentless_entries(ts: Seq<Tok>, pos: int, room: nat)
    ensures
        carries(grammar::indentless_entries(ts, pos, room), ts, pos),
    decreases room, 3int, grammar::left(ts, pos),
{
    match grammar::kind_at(ts, pos) {
        Some(Lexeme::BlockEntry) => {
            let next = grammar::kind_at(ts, pos + 1);
            let empty = next == Some(Lexeme::BlockEntry) || next == Some(Lexeme::Key) || next
                == Some(Lexeme::Value) || next == Some(Lexeme::BlockEnd);
            let parsed = grammar::node_unless(ts, pos + 1, room, empty);
            lemma_node_unless(ts, pos + 1, room, empty);
            lemma_passed(ts, pos, parsed);
            if let Ok((entry, at)) = parsed {
                lemma_indentless_entries(ts, at, room);
                lemma_joined(ts, pos, at, entry, grammar::indentless_entries(ts, at, room));
            }
        },
        _ => {
            lemma_closed(ts, pos, pos, Seq::empty(), Happening::SequenceEnd, pos);
        },
    }
}

proof fn lemma_block_value(ts: Seq<Tok>, pos: int, room: nat)
    ensures
        carries(grammar::block_value(ts, pos, room), ts, pos),
    decreases room, 2int, 0int,
{
    let next = grammar::kind_at(ts, pos + 1);
    let empty = next == Some(Lexeme::Key) || next == Some(Lexeme::BlockEnd);
    lemma_empty(ts, pos, grammar::bare());
    if grammar::kind_at(ts, pos) == Some(Lexeme::Value) {
        lemma_node_unless(ts, pos + 1, room, empty);
        lemma_passed(ts, pos, grammar::node_unless(ts, pos + 1, room, empty));
    }
}

/// A key, its value and the rest of a mapping.
proof fn lemma_pair_joined(
    ts: Seq<Tok>,
    pos: int,
    key: Seq<Ev>,
    middle: int,
    value: Seq<Ev>,
    at: int,
)
    requires
        pos <= middle <= at,
        event_leaves(key) == token_leaves(ts, pos, middle),
        event_leaves(value) == token_leaves(ts, middle, at),
    ensures
        event_leaves(key + value) == token_leaves(ts, pos, at),
{
    lemma_event_leaves(key, value);
    lemma_token_leaves(ts, pos, middle, at);
}

proof fn lemma_block_pairs(ts: Seq<Tok>, pos: int, room: nat)
    ensures
        carries(grammar::block_pairs(ts, pos, room), ts, pos),
    decreases room, 3int, grammar::left(ts, pos),
{
    match grammar::kind_at(ts, pos) {
        Some(Lexeme::Key) => {
            let next = grammar::kind_at(ts, pos + 1);
            let empty = next == Some(Lexeme::Value) || next == Some(Lexeme::Key) || next == Some(
                Lexeme::BlockEnd,
            );
            let parsed = grammar::node_unless(ts, pos + 1, room, empty);
            lemma_node_unless(ts, pos + 1, room, empty);
            if let Ok((key, middle)) = parsed {
                assert(pos < middle);
                lemma_passed(ts, pos, parsed);
                lemma_block_value(ts, middle, room);
                if let Ok((value, at)) = grammar::block_value(ts, middle, room) {
                    lemma_pair_joined(ts, pos, key, middle, value, at);
                    lemma_block_pairs(ts, at, room);
                    lemma_joined(ts, pos, at, key + value, grammar::block_pairs(ts, at, room));
                }
            }
        },
        Some(Lexeme::BlockEnd) => {
            lemma_closed(ts, pos, pos, Seq::empty(), Happening::MappingEnd, pos + 1);
        },
        _ => {},
    }
}

proof fn lemma_flow_pair_value(ts: Seq<Tok>, pos: int, room: nat)
    requires
        grammar::kind_at(ts, pos) == Some(Lexeme::Value),
    ensures
        carries(grammar::flow_pair_value(ts, pos, room), ts, pos),
    decreases room, 2int, 0int,
{
    let parsed = grammar::node_unless(ts, pos + 1, room, grammar::flow_value_ends(ts, pos + 1));
    lemma_node_unless(ts, pos + 1, room, grammar::flow_value_ends(ts, pos + 1));
    lemma_passed(ts, pos, parsed);
    if let Ok((value, at)) = parsed {
        lemma_closed(ts, pos, at, value, Happening::MappingEnd, at);
    }
}

proof fn lemma_flow_entry(ts: Seq<Tok>, pos: int, room: nat)
    ensures
        carries(grammar::flow_entry(ts, pos, room), ts, pos),
    decreases room, 2int, 1int,
{
    let kind = Happening::MappingStart { anchor: None, tag: None };
    let mapping = grammar::ev(ts, kind, pos);
    let none = Seq::<Leaf>::empty();
    lemma_single(ts, kind, pos);
    if room > 0 && grammar::kind_at(ts, pos) == Some(Lexeme::Value) {
        let key = grammar::empty_node(ts, pos, grammar::bare());
        let last = grammar::flow_pair_value(ts, pos, (room - 1) as nat);
        lemma_empty(ts, pos, grammar::bare());
        lemma_event_leaves(mapping, key);
        assert(none + none == none);
        lemma_flow_pair_value(ts, pos, (room - 1) as nat);
        lemma_joined(ts, pos, pos, mapping + key, last);
    } else {
        lemma_node(ts, pos, room);
        if let Ok((entry, at)) = grammar::node(ts, pos, room) {
            if room > 0 && grammar::kind_at(ts, at) == Some(Lexeme::Value) {
                let last = grammar::flow_pair_value(ts, at, (room - 1) as nat);
                lemma_event_leaves(mapping, entry);
                assert(none + event_leaves(entry) == event_leaves(entry));
                lemma_flow_pair_value(ts, at, (room - 1) as nat);
                lemma_joined(ts, pos, at, mapping + entry, last);
            }
        }
    }
}

proof fn lemma_flow_entries(ts: Seq<Tok>, pos: int, room: nat)
    ensures
        carries(grammar::flow_entries(ts, pos, room), ts, pos),
    decreases room, 3int, grammar::left(ts, pos),
{
    match grammar::kind_at(ts, pos) {
        Some(Lexeme::FlowSequenceEnd) => {
            lemma_closed(ts, pos, pos, Seq::empty(), Happening::SequenceEnd, pos + 1);
        },
        Some(Lexeme::FlowEntry) => {},
        _ => {
            lemma_flow_entry(ts, pos, room);
            if let Ok((entry, at)) = grammar::flow_entry(ts, pos, room) {
                match grammar::kind_at(ts, at) {
                    Some(Lexeme::FlowEntry) => {
                        if 0 <= pos {
                            let rest = grammar::flow_entries(ts, at + 1, room);
                            lemma_flow_entries(ts, at + 1, room);
                            lemma_passed(ts, at, rest);
                            lemma_joined(ts, pos, at, entry, rest);
                        }
                    },
                    Some(Lexeme::FlowSequenceEnd) => {
                        lemma_closed(ts, pos, at, entry, Happening::SequenceEnd, at + 1);
                    },
                    _ => {},
                }
            }
        },
    }
}

proof fn lemma_flow_pair(ts: Seq<Tok>, pos: int, room: nat)
    ensures
        carries(grammar::flow_pair(ts, pos, room), ts, pos),
    decreases room, 2int, 1int,
{
    lemma_empty(ts, pos, grammar::bare());
    lemma_node(ts, pos, room);
    if grammar::kind_at(ts, pos) == Some(Lexeme::Key) {
        let empty = grammar::kind_at(ts, pos + 1) == Some(Lexeme::Value)
            || grammar::flow_value_ends(ts, pos + 1);
        lemma_node_unless(ts, pos + 1, room, empty);
        lemma_passed(ts, pos, grammar::node_unless(ts, pos + 1, room, empty));
    }
    assert(carries(grammar::flow_key(ts, pos, room), ts, pos));
    if let Ok((key, middle)) = grammar::flow_key(ts, pos, room) {
        lemma_empty(ts, middle, grammar::bare());
        if grammar::kind_at(ts, middle) == Some(Lexeme::Value) {
            let empty = grammar::flow_value_ends(ts, middle + 1);
            lemma_node_unless(ts, middle + 1, room, empty);
            lemma_passed(ts, middle, grammar::node_unless(ts, middle + 1, room, empty));
        }
        lemma_joined(ts, pos, middle, key, grammar::flow_value(ts, middle, room));
    }
}

proof fn lemma_flow_pairs(ts: Seq<Tok>, pos: int, room: nat)
    ensures
        carries(grammar::flow_pairs(ts, pos, room), ts, pos),
    decreases room, 3int, grammar::left(ts, pos),
{
    match grammar::kind_at(ts, pos) {
        Some(Lexeme::FlowMappingEnd) => {
            lemma_closed(ts, pos, pos, Seq::empty(), Happening::MappingEnd, pos + 1);
        },
        Some(Lexeme::FlowEntry) => {},
        _ => {
            lemma_flow_pair(ts, pos, room);
            if let Ok((entry, at)) = grammar::flow_pair(ts, pos, room) {
                match grammar::kind_at(ts, at) {
                    Some(Lexeme::FlowEntry) => {
                        if 0 <= pos {
                            let rest = grammar::flow_pairs(ts, at + 1, room);
                            lemma_flow_pairs(ts, at + 1, room);
                            lemma_passed(ts, at, rest);
                            lemma_joined(ts, pos, at, entry, rest);
                        }
                    },
                    Some(Lexeme::FlowMappingEnd) => {
                        lemma_closed(ts, pos, at, entry, Happening::MappingEnd, at + 1);
                    },
                    _ => {},
                }
            }
        },
    }
}

proof fn lemma_document(ts: Seq<Tok>, pos: int, room: nat)
    ensures
        carries(grammar::document(ts, pos, room), ts, pos),
{
    let explicit = grammar::kind_at(ts, pos) == Some(Lexeme::DocumentStart);
    let from = if explicit { pos + 1 } else { pos };
    let root = grammar::root(ts, from, room);
    let opening = grammar::ev(ts, Happening::DocumentStart, pos);
    lemma_node_unless(ts, from, room, true);
    lemma_node_unless(ts, from, room, false);
    assert(carries(root, ts, from));
    lemma_opened(ts, pos, Happening::DocumentStart, from, root);
    if let Ok((events, at)) = root {
        let next = if grammar::kind_at(ts, at) == Some(Lexeme::DocumentEnd) {
            at + 1
        } else {
            at
        };
        lemma_closed(ts, pos, at, opening + events, Happening::DocumentEnd, next);
    }
}

proof fn lemma_documents(ts: Seq<Tok>, pos: int, room: nat)
    ensures
        carries(grammar::documents(ts, pos, room), ts, pos),
    decreases grammar::left(ts, pos),
{
    match grammar::kind_at(ts, pos) {
        None => {
            lemma_closed(ts, pos, pos, Seq::empty(), Happening::StreamEnd, pos);
        },
        Some(Lexeme::StreamEnd) => {
            lemma_closed(ts, pos, pos, Seq::empty(), Happening::StreamEnd, pos + 1);
        },
        Some(Lexeme::DocumentEnd) => {
            lemma_documents(ts, pos + 1, room);
            lemma_passed(ts, pos, grammar::documents(ts, pos + 1, room));
        },
        _ => {
            lemma_document(ts, pos, room);
            if let Ok((events, at)) = grammar::document(ts, pos, room) {
                if pos < at {
                    lemma_documents(ts, at, room);
                    lemma_joined(ts, pos, at, events, grammar::documents(ts, at, room));
                }
            }
        },
    }
}

/// The leaves of a token stream that ends with its last token.
pub proof fn lemma_stream_leaves(ts: Seq<Tok>, room: nat)
    requires
        grammar::is_framed(ts),
    ensures
        grammar::stream(ts, room) matches Ok(evs) ==> event_leaves(evs) == token_leaves(
            ts,
            0,
            ts.len() as int,
        ),
{
    shape::law_whole_stream_is_read(ts, room);
    if grammar::kind_at(ts, 0) == Some(Lexeme::StreamStart) {
        lemma_documents(ts, 1, room);
        lemma_opened(ts, 0, Happening::StreamStart, 1, grammar::documents(ts, 1, room));
    }
}

/// A parse loses, adds and reorders no content: the scalars and aliases of the
/// events of a text are those of its tokens, in the same order, with the same text,
/// style and place. The empty plain scalars, which stand for nodes that are not
/// there, are left out of the comparison.
pub proof fn law_events_keep_the_leaves(text: Seq<char>, options: ParseOptions)
    ensures
        parser::events(text, options) matches Ok(evs) ==> {
            &&& scanner::model::tokens(text, options.limits) matches Ok(ts)
            &&& event_leaves(evs) == token_leaves(ts, 0, ts.len() as int)
        },
{
    scanner::laws::law_tokens_are_framed(text, options.limits);
    if let Ok(ts) = scanner::model::tokens(text, options.limits) {
        assert forall|i: int| 0 <= i < ts.len() - 1 implies (#[trigger] ts[i]).kind
            != Lexeme::StreamEnd by {
            assert(ts.drop_last()[i] == ts[i]);
        }
        lemma_stream_leaves(ts, options.limits.max_depth as nat);
    }
}

} // verus!
