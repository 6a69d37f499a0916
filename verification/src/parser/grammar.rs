//! The grammar of the token stream: which events the tokens stand for.

use crate::error;
use crate::error::{ErrorKind, Fault, Position, Span};
use crate::event::{Ev, Happening};
use crate::meta::ScalarStyle;
use crate::scanner::token::{Lexeme, Tok};
use vstd::prelude::*;

verus! {

/// A parse that stopped: what went wrong, the events that were made until then, and
/// the place that was reached.
#[verifier::ext_equal]
pub struct Halt {
    pub fault: Fault,
    pub evs: Seq<Ev>,
    pub pos: int,
}

/// The events of a piece of the stream and the place after it, or a halt.
pub type Parsed = Result<(Seq<Ev>, int), Halt>;

/// The kind of the token at `pos`, if there is one.
pub open spec fn kind_at(ts: Seq<Tok>, pos: int) -> Option<Lexeme> {
    if 0 <= pos < ts.len() {
        Some(ts[pos].kind)
    } else {
        None
    }
}

/// The span of the token at `pos`, or of the last token past the end.
pub open spec fn span_at(ts: Seq<Tok>, pos: int) -> Span {
    if 0 <= pos < ts.len() {
        ts[pos].span
    } else if ts.len() > 0 {
        ts.last().span
    } else {
        let origin = Position { offset: 0, line: 0, column: 0 };
        Span { start: origin, end: origin }
    }
}

/// How many tokens are left at `pos`.
pub open spec fn left(ts: Seq<Tok>, pos: int) -> int {
    if 0 <= pos < ts.len() {
        ts.len() - pos
    } else {
        0
    }
}

/// A fault at the token at `pos`.
pub open spec fn parse_fault(ts: Seq<Tok>, pos: int, message: Seq<char>) -> Fault {
    error::fault(ErrorKind::Parse, message, span_at(ts, pos))
}

/// A halt at the token at `pos`, before any event was made.
pub open spec fn halt(ts: Seq<Tok>, pos: int, message: Seq<char>) -> Halt {
    Halt { fault: parse_fault(ts, pos, message), evs: Seq::empty(), pos }
}

/// The halt of a collection at `pos` that nests too deep.
pub open spec fn too_deep(ts: Seq<Tok>, pos: int) -> Halt {
    Halt {
        fault: error::fault(
            ErrorKind::LimitExceeded,
            "maximum nesting depth exceeded"@,
            span_at(ts, pos),
        ),
        evs: Seq::empty(),
        pos,
    }
}

/// An event without data, located at the token at `pos`.
pub open spec fn ev(ts: Seq<Tok>, kind: Happening, pos: int) -> Seq<Ev> {
    seq![Ev { kind, span: span_at(ts, pos) }]
}

/// The properties of a node.
pub struct Properties {
    pub anchor: Option<Seq<char>>,
    pub tag: Option<Seq<char>>,
}

/// The event of a node that is left empty at `pos`.
pub open spec fn empty_node(ts: Seq<Tok>, pos: int, props: Properties) -> Seq<Ev> {
    ev(
        ts,
        Happening::Scalar {
            value: Seq::empty(),
            style: ScalarStyle::Plain,
            anchor: props.anchor,
            tag: props.tag,
        },
        pos,
    )
}

/// No properties.
pub open spec fn bare() -> Properties {
    Properties { anchor: None, tag: None }
}

/// `events`, then what follows.
pub open spec fn joined(events: Seq<Ev>, rest: Parsed) -> Parsed {
    match rest {
        Err(h) => Err(Halt { evs: events + h.evs, ..h }),
        Ok((more, pos)) => Ok((events + more, pos)),
    }
}

/// Joining is associative.
pub proof fn lemma_joined(a: Seq<Ev>, b: Seq<Ev>, rest: Parsed)
    ensures
        joined(a + b, rest) == joined(a, joined(b, rest)),
{
    match rest {
        Ok((more, _)) => {
            assert(a + b + more == a + (b + more));
        },
        Err(h) => {
            assert(a + b + h.evs == a + (b + h.evs));
        },
    }
}

// ---------------------------------------------------------------------------
// Depth
// ---------------------------------------------------------------------------

/// By how much an event changes how many collections are open.
pub open spec fn step(kind: Happening) -> int {
    match kind {
        Happening::SequenceStart { .. } => 1,
        Happening::MappingStart { .. } => 1,
        Happening::SequenceEnd => -1,
        Happening::MappingEnd => -1,
        _ => 0,
    }
}

/// How many collections the first `k` events leave open.
pub open spec fn level(evs: Seq<Ev>, k: int) -> int
    decreases k,
{
    if k <= 0 {
        0
    } else {
        level(evs, k - 1) + step(evs[k - 1].kind)
    }
}

/// How deep the collections of the first `k` events nest.
pub open spec fn height(evs: Seq<Ev>, k: int) -> int
    decreases k,
{
    if k <= 0 {
        0
    } else if height(evs, k - 1) >= level(evs, k) {
        height(evs, k - 1)
    } else {
        level(evs, k)
    }
}

/// Events nest at least as deep as they leave collections open.
pub proof fn lemma_height(evs: Seq<Ev>, k: int)
    ensures
        height(evs, k) >= 0,
        height(evs, k) >= level(evs, k),
    decreases k,
{
    if k > 0 {
        lemma_height(evs, k - 1);
    }
}

/// A token that starts a collection.
pub open spec fn starts_collection(kind: Option<Lexeme>) -> bool {
    match kind {
        Some(k) => k is BlockSequenceStart || k is BlockMappingStart || k is BlockEntry
            || k is FlowSequenceStart || k is FlowMappingStart,
        None => false,
    }
}

/// Past the anchors and tags at `pos`.
pub open spec fn past_properties(ts: Seq<Tok>, pos: int) -> int
    decreases left(ts, pos),
{
    match kind_at(ts, pos) {
        Some(Lexeme::Anchor(_)) => past_properties(ts, pos + 1),
        Some(Lexeme::Tag(_)) => past_properties(ts, pos + 1),
        _ => pos,
    }
}

/// The node at `pos` is a collection.
pub open spec fn is_collection(ts: Seq<Tok>, pos: int) -> bool {
    starts_collection(kind_at(ts, past_properties(ts, pos)))
}

// ---------------------------------------------------------------------------
// Nodes
// ---------------------------------------------------------------------------

/// The properties at `pos`, in any order, each kind at most once.
pub open spec fn properties(ts: Seq<Tok>, pos: int, props: Properties) -> Result<
    (Properties, int),
    Halt,
>
    decreases left(ts, pos),
{
    match kind_at(ts, pos) {
        Some(Lexeme::Anchor(name)) => if props.anchor is Some {
            Err(halt(ts, pos, "a node may have at most one anchor"@))
        } else {
            properties(ts, pos + 1, Properties { anchor: Some(name), ..props })
        },
        Some(Lexeme::Tag(tag)) => if props.tag is Some {
            Err(halt(ts, pos, "a node may have at most one tag"@))
        } else {
            properties(ts, pos + 1, Properties { tag: Some(tag), ..props })
        },
        _ => Ok((props, pos)),
    }
}

/// Properties are passed over.
pub proof fn lemma_past_properties(ts: Seq<Tok>, pos: int, props: Properties)
    ensures
        properties(ts, pos, props) matches Ok((_, at)) ==> at == past_properties(ts, pos),
    decreases left(ts, pos),
{
    match kind_at(ts, pos) {
        Some(Lexeme::Anchor(name)) => {
            lemma_past_properties(ts, pos + 1, Properties { anchor: Some(name), ..props });
        },
        Some(Lexeme::Tag(tag)) => {
            lemma_past_properties(ts, pos + 1, Properties { tag: Some(tag), ..props });
        },
        _ => {},
    }
}

/// The node at `pos`. Its collections may nest `room` levels deep.
pub open spec fn node(ts: Seq<Tok>, pos: int, room: nat) -> Parsed
    decreases room, 0int, 0int,
{
    if room == 0 && is_collection(ts, pos) {
        Err(too_deep(ts, pos))
    } else {
        match properties(ts, pos, bare()) {
            Err(h) => Err(h),
            Ok((props, at)) => if room > 0 && starts_collection(kind_at(ts, at)) {
                collection(ts, at, props, (room - 1) as nat)
            } else {
                leaf(ts, at, props)
            },
        }
    }
}

/// The scalar, alias or empty node at `at`, behind its properties.
pub open spec fn leaf(ts: Seq<Tok>, at: int, props: Properties) -> Parsed {
    match kind_at(ts, at) {
        Some(Lexeme::Scalar { value, style }) => {
            let scalar = Happening::Scalar { value, style, anchor: props.anchor, tag: props.tag };
            Ok((ev(ts, scalar, at), at + 1))
        },
        Some(Lexeme::Alias(name)) => if props.anchor is Some || props.tag is Some {
            Err(halt(ts, at, "an alias node cannot have an anchor or tag"@))
        } else {
            Ok((ev(ts, Happening::Alias(name), at), at + 1))
        },
        _ => Ok((empty_node(ts, at, props), at)),
    }
}

/// The collection at `at`, behind its properties. What is in it may nest `room`
/// levels deep.
pub open spec fn collection(ts: Seq<Tok>, at: int, props: Properties, room: nat) -> Parsed
    decreases room, 4int, 0int,
{
    let sequence = ev(
        ts,
        Happening::SequenceStart { anchor: props.anchor, tag: props.tag },
        at,
    );
    let mapping = ev(ts, Happening::MappingStart { anchor: props.anchor, tag: props.tag }, at);
    match kind_at(ts, at) {
        Some(Lexeme::BlockSequenceStart) => joined(sequence, block_entries(ts, at + 1, room)),
        Some(Lexeme::BlockMappingStart) => joined(mapping, block_pairs(ts, at + 1, room)),
        Some(Lexeme::FlowSequenceStart) => joined(sequence, flow_entries(ts, at + 1, room)),
        Some(Lexeme::FlowMappingStart) => joined(mapping, flow_pairs(ts, at + 1, room)),
        _ => joined(sequence, indentless_entries(ts, at, room)),
    }
}

/// The node at `pos`, or an empty one where `empty` says that none is there.
pub open spec fn node_unless(ts: Seq<Tok>, pos: int, room: nat, empty: bool) -> Parsed
    decreases room, 1int, 0int,
{
    if empty {
        Ok((empty_node(ts, pos, bare()), pos))
    } else {
        node(ts, pos, room)
    }
}

// ---------------------------------------------------------------------------
// Block collections
// ---------------------------------------------------------------------------

/// The entries of a block sequence up to its end.
pub open spec fn block_entries(ts: Seq<Tok>, pos: int, room: nat) -> Parsed
    decreases room, 3int, left(ts, pos),
{
    match kind_at(ts, pos) {
        Some(Lexeme::BlockEntry) => {
            let next = kind_at(ts, pos + 1);
            let empty = next == Some(Lexeme::BlockEntry) || next == Some(Lexeme::BlockEnd);
            match node_unless(ts, pos + 1, room, empty) {
                Ok((entry, at)) if pos < at => joined(entry, block_entries(ts, at, room)),
                other => other,
            }
        },
        Some(Lexeme::BlockEnd) => Ok((ev(ts, Happening::SequenceEnd, pos), pos + 1)),
        _ => Err(halt(ts, pos, "expected a block sequence entry or end"@)),
    }
}

/// The entries of a sequence that has no indentation of its own. It ends where
/// no entry follows.
pub open spec fn indentless_entries(ts: Seq<Tok>, pos: int, room: nat) -> Parsed
    decreases room, 3int, left(ts, pos),
{
    match kind_at(ts, pos) {
        Some(Lexeme::BlockEntry) => {
            let next = kind_at(ts, pos + 1);
            let empty = next == Some(Lexeme::BlockEntry) || next == Some(Lexeme::Key) || next
                == Some(Lexeme::Value) || next == Some(Lexeme::BlockEnd);
            match node_unless(ts, pos + 1, room, empty) {
                Ok((entry, at)) if pos < at => joined(entry, indentless_entries(ts, at, room)),
                other => other,
            }
        },
        _ => Ok((ev(ts, Happening::SequenceEnd, pos), pos)),
    }
}

/// The value of a block mapping entry whose key ends at `pos`.
pub open spec fn block_value(ts: Seq<Tok>, pos: int, room: nat) -> Parsed
    decreases room, 2int, 0int,
{
    if kind_at(ts, pos) == Some(Lexeme::Value) {
        let next = kind_at(ts, pos + 1);
        let empty = next == Some(Lexeme::Key) || next == Some(Lexeme::BlockEnd);
        node_unless(ts, pos + 1, room, empty)
    } else {
        Ok((empty_node(ts, pos, bare()), pos))
    }
}

/// The entries of a block mapping up to its end.
pub open spec fn block_pairs(ts: Seq<Tok>, pos: int, room: nat) -> Parsed
    decreases room, 3int, left(ts, pos),
{
    match kind_at(ts, pos) {
        Some(Lexeme::Key) => {
            let next = kind_at(ts, pos + 1);
            let empty = next == Some(Lexeme::Value) || next == Some(Lexeme::Key) || next == Some(
                Lexeme::BlockEnd,
            );
            match node_unless(ts, pos + 1, room, empty) {
                Ok((key, middle)) => match block_value(ts, middle, room) {
                    Ok((value, at)) if pos < at => joined(key + value, block_pairs(ts, at, room)),
                    other => joined(key, other),
                },
                other => other,
            }
        },
        Some(Lexeme::BlockEnd) => Ok((ev(ts, Happening::MappingEnd, pos), pos + 1)),
        _ => Err(halt(ts, pos, "expected a block mapping key or end"@)),
    }
}

// ---------------------------------------------------------------------------
// Flow collections
// ---------------------------------------------------------------------------

/// Nothing that could be a flow value is at `pos`.
pub open spec fn flow_value_ends(ts: Seq<Tok>, pos: int) -> bool {
    match kind_at(ts, pos) {
        None => true,
        Some(k) => k is FlowEntry || k is FlowSequenceEnd || k is FlowMappingEnd,
    }
}

/// The value of a single pair inside a flow sequence, and the end of the mapping
/// that the pair makes. The `:` is at `pos`.
pub open spec fn flow_pair_value(ts: Seq<Tok>, pos: int, room: nat) -> Parsed
    decreases room, 2int, 0int,
{
    match node_unless(ts, pos + 1, room, flow_value_ends(ts, pos + 1)) {
        Err(h) => Err(h),
        Ok((value, at)) => Ok((value + ev(ts, Happening::MappingEnd, at), at)),
    }
}

/// One entry of a flow sequence: a node, or a single pair that makes a mapping. The
/// mapping is one more level, so a pair needs room, and its key must leave some.
pub open spec fn flow_entry(ts: Seq<Tok>, pos: int, room: nat) -> Parsed
    decreases room, 2int, 1int,
{
    let mapping = ev(ts, Happening::MappingStart { anchor: None, tag: None }, pos);
    if kind_at(ts, pos) == Some(Lexeme::Value) {
        if room == 0 {
            Err(too_deep(ts, pos))
        } else {
            joined(
                mapping + empty_node(ts, pos, bare()),
                flow_pair_value(ts, pos, (room - 1) as nat),
            )
        }
    } else {
        match node(ts, pos, room) {
            Err(h) => Err(h),
            Ok((entry, at)) => if kind_at(ts, at) != Some(Lexeme::Value) {
                Ok((entry, at))
            } else if room == 0 || height(entry, entry.len() as int) >= room {
                joined(entry, Err(too_deep(ts, at)))
            } else {
                joined(mapping + entry, flow_pair_value(ts, at, (room - 1) as nat))
            },
        }
    }
}

/// The entries of a flow sequence up to its end.
pub open spec fn flow_entries(ts: Seq<Tok>, pos: int, room: nat) -> Parsed
    decreases room, 3int, left(ts, pos),
{
    match kind_at(ts, pos) {
        Some(Lexeme::FlowSequenceEnd) => Ok((ev(ts, Happening::SequenceEnd, pos), pos + 1)),
        Some(Lexeme::FlowEntry) => Err(halt(ts, pos, "unexpected ',' in flow sequence"@)),
        _ => match flow_entry(ts, pos, room) {
            Err(h) => Err(h),
            Ok((entry, at)) => match kind_at(ts, at) {
                Some(Lexeme::FlowEntry) => if 0 <= pos <= at {
                    joined(entry, flow_entries(ts, at + 1, room))
                } else {
                    Ok((entry, at))
                },
                Some(Lexeme::FlowSequenceEnd) => Ok(
                    (entry + ev(ts, Happening::SequenceEnd, at), at + 1),
                ),
                _ => joined(
                    entry,
                    Err(halt(ts, at, "expected ',' or ']' in flow sequence"@)),
                ),
            },
        },
    }
}

/// The key of a flow mapping entry: explicit, implicit or left out.
pub open spec fn flow_key(ts: Seq<Tok>, pos: int, room: nat) -> Parsed
    decreases room, 2int, 0int,
{
    match kind_at(ts, pos) {
        Some(Lexeme::Key) => node_unless(
            ts,
            pos + 1,
            room,
            kind_at(ts, pos + 1) == Some(Lexeme::Value) || flow_value_ends(ts, pos + 1),
        ),
        Some(Lexeme::Value) => Ok((empty_node(ts, pos, bare()), pos)),
        _ => node(ts, pos, room),
    }
}

/// The value of a flow mapping entry whose key ends at `pos`.
pub open spec fn flow_value(ts: Seq<Tok>, pos: int, room: nat) -> Parsed
    decreases room, 2int, 0int,
{
    if kind_at(ts, pos) == Some(Lexeme::Value) {
        node_unless(ts, pos + 1, room, flow_value_ends(ts, pos + 1))
    } else {
        Ok((empty_node(ts, pos, bare()), pos))
    }
}

/// One entry of a flow mapping.
pub open spec fn flow_pair(ts: Seq<Tok>, pos: int, room: nat) -> Parsed
    decreases room, 2int, 1int,
{
    match flow_key(ts, pos, room) {
        Err(h) => Err(h),
        Ok((key, middle)) => joined(key, flow_value(ts, middle, room)),
    }
}

/// The entries of a flow mapping up to its end.
pub open spec fn flow_pairs(ts: Seq<Tok>, pos: int, room: nat) -> Parsed
    decreases room, 3int, left(ts, pos),
{
    match kind_at(ts, pos) {
        Some(Lexeme::FlowMappingEnd) => Ok((ev(ts, Happening::MappingEnd, pos), pos + 1)),
        Some(Lexeme::FlowEntry) => Err(halt(ts, pos, "unexpected ',' in flow mapping"@)),
        _ => match flow_pair(ts, pos, room) {
            Err(h) => Err(h),
            Ok((entry, at)) => match kind_at(ts, at) {
                Some(Lexeme::FlowEntry) => if 0 <= pos <= at {
                    joined(entry, flow_pairs(ts, at + 1, room))
                } else {
                    Ok((entry, at))
                },
                Some(Lexeme::FlowMappingEnd) => Ok(
                    (entry + ev(ts, Happening::MappingEnd, at), at + 1),
                ),
                _ => joined(
                    entry,
                    Err(halt(ts, at, "expected ',' or '}' in flow mapping"@)),
                ),
            },
        },
    }
}

// ---------------------------------------------------------------------------
// Documents
// ---------------------------------------------------------------------------

/// The root node of a document; an empty document holds an empty node.
pub open spec fn root(ts: Seq<Tok>, pos: int, room: nat) -> Parsed {
    let empty = match kind_at(ts, pos) {
        None => true,
        Some(k) => k is StreamEnd || k is DocumentStart || k is DocumentEnd,
    };
    node_unless(ts, pos, room, empty)
}

/// A document whose `---`, if it has one, is at `pos`.
pub open spec fn document(ts: Seq<Tok>, pos: int, room: nat) -> Parsed {
    let explicit = kind_at(ts, pos) == Some(Lexeme::DocumentStart);
    let opening = ev(ts, Happening::DocumentStart, pos);
    match root(ts, if explicit { pos + 1 } else { pos }, room) {
        Err(h) => joined(opening, Err(h)),
        Ok((events, at)) => {
            let next = if kind_at(ts, at) == Some(Lexeme::DocumentEnd) {
                at + 1
            } else {
                at
            };
            let all = opening + events + ev(ts, Happening::DocumentEnd, at);
            if next == pos {
                joined(all, Err(halt(ts, pos, "unexpected token at document level"@)))
            } else {
                Ok((all, next))
            }
        },
    }
}

/// The documents from `pos` up to the end of the stream.
pub open spec fn documents(ts: Seq<Tok>, pos: int, room: nat) -> Parsed
    decreases left(ts, pos),
{
    match kind_at(ts, pos) {
        None => Ok((ev(ts, Happening::StreamEnd, pos), pos)),
        Some(Lexeme::StreamEnd) => Ok((ev(ts, Happening::StreamEnd, pos), pos + 1)),
        Some(Lexeme::DocumentEnd) => documents(ts, pos + 1, room),
        _ => match document(ts, pos, room) {
            Ok((events, at)) if pos < at => joined(events, documents(ts, at, room)),
            other => other,
        },
    }
}

/// The stream ends with its last token, and nowhere before.
pub open spec fn is_framed(ts: Seq<Tok>) -> bool {
    &&& ts.len() > 0
    &&& ts.last().kind == Lexeme::StreamEnd
    &&& forall|i: int| 0 <= i < ts.len() - 1 ==> (#[trigger] ts[i]).kind != Lexeme::StreamEnd
}

/// A whole token stream; its collections may nest `room` levels deep.
pub open spec fn whole(ts: Seq<Tok>, room: nat) -> Parsed {
    if kind_at(ts, 0) != Some(Lexeme::StreamStart) {
        Err(halt(ts, 0, "expected stream start"@))
    } else {
        joined(ev(ts, Happening::StreamStart, 0), documents(ts, 1, room))
    }
}

/// The events of a whole token stream, or the fault that stops the parse.
pub open spec fn stream(ts: Seq<Tok>, room: nat) -> Result<Seq<Ev>, Fault> {
    match whole(ts, room) {
        Err(h) => Err(h.fault),
        Ok((events, _)) => Ok(events),
    }
}

} // verus!
