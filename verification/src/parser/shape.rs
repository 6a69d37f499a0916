//! The shape of an event stream: nodes that nest, within documents.

use crate::error::{ErrorKind, Fault};
use crate::event;
use crate::event::{Ev, Happening};
use crate::parser::grammar;
use crate::parser::grammar::Parsed;
use crate::scanner::token::{Lexeme, Tok};
use vstd::prelude::*;

verus! {

/// Past the node at `pos`, if a whole node is there whose collections nest at most
/// `room` levels deep.
pub open spec fn node_end(evs: Seq<Ev>, pos: int, room: nat) -> Option<int>
    decreases event::left(evs, pos), 0int,
{
    match event::kind_at(evs, pos) {
        Some(Happening::Scalar { .. }) => Some(pos + 1),
        Some(Happening::Alias(_)) => Some(pos + 1),
        Some(Happening::SequenceStart { .. }) => if room == 0 {
            None
        } else {
            items_end(evs, pos + 1, (room - 1) as nat)
        },
        Some(Happening::MappingStart { .. }) => if room == 0 {
            None
        } else {
            pairs_end(evs, pos + 1, (room - 1) as nat)
        },
        _ => None,
    }
}

/// Past the end of a sequence whose items from `pos` on are whole nodes.
pub open spec fn items_end(evs: Seq<Ev>, pos: int, room: nat) -> Option<int>
    decreases event::left(evs, pos), 1int,
{
    if event::kind_at(evs, pos) == Some(Happening::SequenceEnd) {
        Some(pos + 1)
    } else if event::kind_at(evs, pos) is None {
        None
    } else {
        match node_end(evs, pos, room) {
            Some(at) => if pos < at {
                items_end(evs, at, room)
            } else {
                None
            },
            None => None,
        }
    }
}

/// Past the end of a mapping whose keys and values from `pos` on are whole nodes.
pub open spec fn pairs_end(evs: Seq<Ev>, pos: int, room: nat) -> Option<int>
    decreases event::left(evs, pos), 1int,
{
    if event::kind_at(evs, pos) == Some(Happening::MappingEnd) {
        Some(pos + 1)
    } else if event::kind_at(evs, pos) is None {
        None
    } else {
        match node_end(evs, pos, room) {
            Some(middle) => if pos < middle {
                match node_end(evs, middle, room) {
                    Some(at) => if middle < at {
                        pairs_end(evs, at, room)
                    } else {
                        None
                    },
                    None => None,
                }
            } else {
                None
            },
            None => None,
        }
    }
}

/// From `pos` on stand whole documents, each a node between its start and its
/// end, and then the end of the stream, which is the last event.
pub open spec fn are_documents(evs: Seq<Ev>, pos: int, room: nat) -> bool
    decreases event::left(evs, pos),
{
    match event::kind_at(evs, pos) {
        Some(Happening::StreamEnd) => pos + 1 == evs.len(),
        Some(Happening::DocumentStart) => match node_end(evs, pos + 1, room) {
            Some(at) => pos < at && event::kind_at(evs, at) == Some(Happening::DocumentEnd)
                && are_documents(evs, at + 1, room),
            None => false,
        },
        _ => false,
    }
}

/// How many documents stand from `pos` on.
pub open spec fn document_count(evs: Seq<Ev>, pos: int, room: nat) -> nat
    decreases event::left(evs, pos),
{
    match event::kind_at(evs, pos) {
        Some(Happening::DocumentStart) => match node_end(evs, pos + 1, room) {
            Some(at) => if pos < at {
                1 + document_count(evs, at + 1, room)
            } else {
                0
            },
            None => 0,
        },
        _ => 0,
    }
}

/// The events are a whole stream whose collections nest at most `room` levels deep.
pub open spec fn is_stream(evs: Seq<Ev>, room: nat) -> bool {
    event::kind_at(evs, 0) == Some(Happening::StreamStart) && are_documents(evs, 1, room)
}

// ---------------------------------------------------------------------------
// Placing events
// ---------------------------------------------------------------------------

/// The events `part` stand in `evs` at `pos`.
pub open spec fn stands(evs: Seq<Ev>, pos: int, part: Seq<Ev>) -> bool {
    &&& 0 <= pos
    &&& pos + part.len() <= evs.len()
    &&& forall|k: int| 0 <= k < part.len() ==> evs[pos + k] == #[trigger] part[k]
}

proof fn lemma_stands(evs: Seq<Ev>, pos: int, a: Seq<Ev>, b: Seq<Ev>)
    requires
        stands(evs, pos, a + b),
    ensures
        stands(evs, pos, a),
        stands(evs, pos + a.len(), b),
{
    assert forall|k: int| 0 <= k < a.len() implies evs[pos + k] == #[trigger] a[k] by {
        assert((a + b)[k] == a[k]);
    }
    assert forall|k: int| 0 <= k < b.len() implies evs[pos + a.len() + k] == #[trigger] b[k] by {
        assert((a + b)[a.len() + k] == b[k]);
    }
}

// ---------------------------------------------------------------------------
// Depth
// ---------------------------------------------------------------------------

/// The rest of a sequence goes forward.
proof fn lemma_items_forward(evs: Seq<Ev>, pos: int, room: nat)
    ensures
        items_end(evs, pos, room) matches Some(at) ==> pos < at,
    decreases event::left(evs, pos), 1int,
{
    if event::kind_at(evs, pos) is Some && event::kind_at(evs, pos) != Some(Happening::SequenceEnd) {
        if let Some(at) = node_end(evs, pos, room) {
            if pos < at {
                lemma_items_forward(evs, at, room);
            }
        }
    }
}

/// The rest of a mapping goes forward.
proof fn lemma_pairs_forward(evs: Seq<Ev>, pos: int, room: nat)
    ensures
        pairs_end(evs, pos, room) matches Some(at) ==> pos < at,
    decreases event::left(evs, pos), 1int,
{
    if event::kind_at(evs, pos) is Some && event::kind_at(evs, pos) != Some(Happening::MappingEnd) {
        if let Some(middle) = node_end(evs, pos, room) {
            if pos < middle {
                if let Some(at) = node_end(evs, middle, room) {
                    if middle < at {
                        lemma_pairs_forward(evs, at, room);
                    }
                }
            }
        }
    }
}

/// From `pos` to `at` the events open at most `h` collections more.
pub open spec fn keeps_within(evs: Seq<Ev>, pos: int, at: int, h: int) -> bool {
    forall|k: int| pos <= k <= at ==> #[trigger] grammar::level(evs, k) <= h
}

/// A node whose events open few collections needs little room.
proof fn lemma_node_fits(evs: Seq<Ev>, pos: int, room: nat, less: nat)
    requires
        0 <= pos,
        node_end(evs, pos, room) matches Some(at) && keeps_within(
            evs,
            pos,
            at,
            grammar::level(evs, pos) + less,
        ),
    ensures
        node_end(evs, pos, less) == node_end(evs, pos, room),
        node_end(evs, pos, room) matches Some(at) && grammar::level(evs, at) == grammar::level(
            evs,
            pos,
        ),
    decreases event::left(evs, pos), 0int,
{
    assert(grammar::level(evs, pos + 1) == grammar::level(evs, pos) + grammar::step(evs[pos].kind));
    let at = node_end(evs, pos, room)->Some_0;
    match event::kind_at(evs, pos) {
        Some(Happening::SequenceStart { .. }) => {
            lemma_items_forward(evs, pos + 1, (room - 1) as nat);
            assert(grammar::level(evs, pos + 1) <= grammar::level(evs, pos) + less);
            lemma_items_fit(evs, pos + 1, (room - 1) as nat, (less - 1) as nat);
        },
        Some(Happening::MappingStart { .. }) => {
            lemma_pairs_forward(evs, pos + 1, (room - 1) as nat);
            assert(grammar::level(evs, pos + 1) <= grammar::level(evs, pos) + less);
            lemma_pairs_fit(evs, pos + 1, (room - 1) as nat, (less - 1) as nat);
        },
        _ => {},
    }
}

proof fn lemma_items_fit(evs: Seq<Ev>, pos: int, room: nat, less: nat)
    requires
        0 <= pos,
        items_end(evs, pos, room) matches Some(at) && keeps_within(
            evs,
            pos,
            at,
            grammar::level(evs, pos) + less,
        ),
    ensures
        items_end(evs, pos, less) == items_end(evs, pos, room),
        items_end(evs, pos, room) matches Some(at) && grammar::level(evs, at) == grammar::level(
            evs,
            pos,
        ) - 1,
    decreases event::left(evs, pos), 1int,
{
    if event::kind_at(evs, pos) == Some(Happening::SequenceEnd) {
        assert(grammar::level(evs, pos + 1) == grammar::level(evs, pos) - 1);
    } else {
        let at = node_end(evs, pos, room)->Some_0;
        lemma_items_forward(evs, at, room);
        lemma_node_fits(evs, pos, room, less);
        lemma_items_fit(evs, at, room, less);
    }
}

proof fn lemma_pairs_fit(evs: Seq<Ev>, pos: int, room: nat, less: nat)
    requires
        0 <= pos,
        pairs_end(evs, pos, room) matches Some(at) && keeps_within(
            evs,
            pos,
            at,
            grammar::level(evs, pos) + less,
        ),
    ensures
        pairs_end(evs, pos, less) == pairs_end(evs, pos, room),
        pairs_end(evs, pos, room) matches Some(at) && grammar::level(evs, at) == grammar::level(
            evs,
            pos,
        ) - 1,
    decreases event::left(evs, pos), 1int,
{
    if event::kind_at(evs, pos) == Some(Happening::MappingEnd) {
        assert(grammar::level(evs, pos + 1) == grammar::level(evs, pos) - 1);
    } else {
        let middle = node_end(evs, pos, room)->Some_0;
        let at = node_end(evs, middle, room)->Some_0;
        lemma_pairs_forward(evs, at, room);
        lemma_node_fits(evs, pos, room, less);
        lemma_node_fits(evs, middle, room, less);
        lemma_pairs_fit(evs, at, room, less);
    }
}

/// Events open as many collections wherever they stand, and no more than they nest.
proof fn lemma_levels_stand(evs: Seq<Ev>, pos: int, part: Seq<Ev>, k: int)
    requires
        stands(evs, pos, part),
        0 <= k <= part.len(),
    ensures
        grammar::level(evs, pos + k) == grammar::level(evs, pos) + grammar::level(part, k),
        grammar::level(part, k) <= grammar::height(part, part.len() as int),
    decreases k,
{
    lemma_height_grows(part, k, part.len() as int);
    if k > 0 {
        lemma_levels_stand(evs, pos, part, k - 1);
        assert(evs[pos + (k - 1)] == part[k - 1]);
    }
}

proof fn lemma_height_grows(part: Seq<Ev>, k: int, to: int)
    requires
        0 <= k <= to,
    ensures
        grammar::level(part, k) <= grammar::height(part, to),
    decreases to,
{
    if k < to {
        lemma_height_grows(part, k, to - 1);
    } else {
        grammar::lemma_height(part, k);
    }
}

/// A node fits into the room that its events take.
proof fn lemma_node_shrinks(evs: Seq<Ev>, pos: int, part: Seq<Ev>, room: nat, less: nat)
    requires
        stands(evs, pos, part),
        node_end(evs, pos, room) == Some(pos + part.len()),
        grammar::height(part, part.len() as int) <= less,
    ensures
        node_end(evs, pos, less) == Some(pos + part.len()),
{
    assert forall|k: int| pos <= k <= pos + part.len() implies #[trigger] grammar::level(evs, k)
        <= grammar::level(evs, pos) + less by {
        lemma_levels_stand(evs, pos, part, k - pos);
    }
    lemma_node_fits(evs, pos, room, less);
}

// ---------------------------------------------------------------------------
// The grammar makes nodes
// ---------------------------------------------------------------------------

/// A fault that a parse can give: it is of the parser or of a limit, and it says
/// where it is.
pub open spec fn is_parse_fault(f: Fault) -> bool {
    (f.kind == ErrorKind::Parse || f.kind == ErrorKind::LimitExceeded) && f.span is Some
}

/// A parse from `pos` to `at` goes forward, and not past the end of the stream.
pub open spec fn goes(ts: Seq<Tok>, pos: int, at: int) -> bool {
    pos <= at && (grammar::is_framed(ts) && 0 <= pos < ts.len() ==> at < ts.len())
}

/// What a parse gave is one whole node, wherever it stands.
pub open spec fn is_node(parsed: Parsed, evs: Seq<Ev>, pos: int, deep: nat) -> bool {
    match parsed {
        Ok((part, _)) => stands(evs, pos, part) ==> part.len() > 0 && node_end(evs, pos, deep)
            == Some(pos + part.len()),
        Err(h) => is_parse_fault(h.fault),
    }
}

/// What a parse gave is the rest of a sequence.
pub open spec fn is_items(parsed: Parsed, evs: Seq<Ev>, pos: int, deep: nat) -> bool {
    match parsed {
        Ok((part, _)) => stands(evs, pos, part) ==> items_end(evs, pos, deep) == Some(
            pos + part.len(),
        ),
        Err(h) => is_parse_fault(h.fault),
    }
}

/// What a parse gave is the rest of a mapping.
pub open spec fn is_pairs(parsed: Parsed, evs: Seq<Ev>, pos: int, deep: nat) -> bool {
    match parsed {
        Ok((part, _)) => stands(evs, pos, part) ==> pairs_end(evs, pos, deep) == Some(
            pos + part.len(),
        ),
        Err(h) => is_parse_fault(h.fault),
    }
}

/// Reading properties goes forward.
proof fn lemma_properties(ts: Seq<Tok>, pos: int, props: grammar::Properties)
    ensures
        match grammar::properties(ts, pos, props) {
            Ok((_, at)) => goes(ts, pos, at),
            Err(h) => is_parse_fault(h.fault),
        },
    decreases grammar::left(ts, pos),
{
    match grammar::kind_at(ts, pos) {
        Some(Lexeme::Anchor(name)) => {
            if props.anchor is None {
                lemma_properties(
                    ts,
                    pos + 1,
                    grammar::Properties { anchor: Some(name), ..props },
                );
            }
        },
        Some(Lexeme::Tag(tag)) => {
            if props.tag is None {
                lemma_properties(
                    ts,
                    pos + 1,
                    grammar::Properties { tag: Some(tag), ..props },
                );
            }
        },
        _ => {},
    }
}

/// The events of a node are a whole node, and parsing goes forward.
pub proof fn lemma_node(ts: Seq<Tok>, pos: int, room: nat, evs: Seq<Ev>, p: int)
    ensures
        is_node(grammar::node(ts, pos, room), evs, p, room),
        grammar::node(ts, pos, room) matches Ok((_, at)) ==> goes(ts, pos, at),
    decreases room, 0int, 0int,
{
    lemma_properties(ts, pos, grammar::bare());
    grammar::lemma_past_properties(ts, pos, grammar::bare());
    if let Ok((props, at)) = grammar::properties(ts, pos, grammar::bare()) {
        if grammar::starts_collection(grammar::kind_at(ts, at)) {
            if room > 0 {
                lemma_collection(ts, at, props, (room - 1) as nat, evs, p);
            }
        } else if let Ok((part, _)) = grammar::leaf(ts, at, props) {
            if stands(evs, p, part) {
                assert(evs[p + 0] == part[0]);
            }
        }
    }
}

proof fn lemma_collection(
    ts: Seq<Tok>,
    at: int,
    props: grammar::Properties,
    room: nat,
    evs: Seq<Ev>,
    p: int,
)
    requires
        grammar::starts_collection(grammar::kind_at(ts, at)),
    ensures
        is_node(grammar::collection(ts, at, props, room), evs, p, room + 1),
        grammar::collection(ts, at, props, room) matches Ok((_, to)) ==> goes(ts, at, to),
    decreases room, 4int, 0int,
{
    let sequence = grammar::ev(
        ts,
        Happening::SequenceStart { anchor: props.anchor, tag: props.tag },
        at,
    );
    let mapping = grammar::ev(
        ts,
        Happening::MappingStart { anchor: props.anchor, tag: props.tag },
        at,
    );
    match grammar::kind_at(ts, at) {
        Some(Lexeme::BlockSequenceStart) => {
            lemma_block_entries(ts, at + 1, room, evs, p + 1);
            lemma_opened(sequence, grammar::block_entries(ts, at + 1, room), evs, p, room);
        },
        Some(Lexeme::BlockMappingStart) => {
            lemma_block_pairs(ts, at + 1, room, evs, p + 1);
            lemma_opened(mapping, grammar::block_pairs(ts, at + 1, room), evs, p, room);
        },
        Some(Lexeme::FlowSequenceStart) => {
            lemma_flow_entries(ts, at + 1, room, evs, p + 1);
            lemma_opened(sequence, grammar::flow_entries(ts, at + 1, room), evs, p, room);
        },
        Some(Lexeme::FlowMappingStart) => {
            lemma_flow_pairs(ts, at + 1, room, evs, p + 1);
            lemma_opened(mapping, grammar::flow_pairs(ts, at + 1, room), evs, p, room);
        },
        _ => {
            lemma_indentless_entries(ts, at, room, evs, p + 1);
            lemma_opened(sequence, grammar::indentless_entries(ts, at, room), evs, p, room);
        },
    }
}

/// The start of a collection in front of the rest of it.
proof fn lemma_opened(opening: Seq<Ev>, rest: Parsed, evs: Seq<Ev>, p: int, room: nat)
    requires
        opening.len() == 1,
        opening[0].kind is SequenceStart && is_items(rest, evs, p + 1, room)
            || opening[0].kind is MappingStart && is_pairs(rest, evs, p + 1, room),
    ensures
        is_node(grammar::joined(opening, rest), evs, p, room + 1),
{
    if let Ok((part, _)) = rest {
        if stands(evs, p, opening + part) {
            lemma_stands(evs, p, opening, part);
            assert(evs[p + 0] == opening[0]);
        }
    }
}

proof fn lemma_node_unless(ts: Seq<Tok>, pos: int, room: nat, empty: bool, evs: Seq<Ev>, p: int)
    ensures
        is_node(grammar::node_unless(ts, pos, room, empty), evs, p, room),
        grammar::node_unless(ts, pos, room, empty) matches Ok((_, at)) ==> goes(ts, pos, at),
    decreases room, 1int, 0int,
{
    lemma_node(ts, pos, room, evs, p);
    if let Ok((part, _)) = grammar::node_unless(ts, pos, room, empty) {
        if stands(evs, p, part) && part.len() > 0 {
            assert(evs[p + 0] == part[0]);
        }
    }
}

/// One more item in front of the rest of a sequence.
proof fn lemma_item_joined(
    entry: Seq<Ev>,
    rest: Parsed,
    evs: Seq<Ev>,
    p: int,
    deep: nat,
)
    requires
        stands(evs, p, entry) ==> entry.len() > 0 && node_end(evs, p, deep) == Some(p + entry.len()),
        is_items(rest, evs, p + entry.len(), deep),
    ensures
        is_items(grammar::joined(entry, rest), evs, p, deep),
{
    if let Ok((more, _)) = rest {
        if stands(evs, p, entry + more) {
            lemma_stands(evs, p, entry, more);
            lemma_node_starts(evs, p, deep);
        }
    }
}

/// One more key and value in front of the rest of a mapping.
proof fn lemma_pair_joined(
    key: Seq<Ev>,
    value: Seq<Ev>,
    rest: Parsed,
    evs: Seq<Ev>,
    p: int,
    deep: nat,
)
    requires
        stands(evs, p, key) ==> key.len() > 0 && node_end(evs, p, deep) == Some(p + key.len()),
        stands(evs, p + key.len(), value) ==> value.len() > 0 && node_end(
            evs,
            p + key.len(),
            deep,
        ) == Some(p + key.len() + value.len()),
        is_pairs(rest, evs, p + key.len() + value.len(), deep),
    ensures
        is_pairs(grammar::joined(key + value, rest), evs, p, deep),
{
    if let Ok((more, _)) = rest {
        if stands(evs, p, key + value + more) {
            lemma_stands(evs, p, key + value, more);
            lemma_stands(evs, p, key, value);
            lemma_node_starts(evs, p, deep);
        }
    }
}

/// A node does not begin with the end of a collection.
proof fn lemma_node_starts(evs: Seq<Ev>, p: int, deep: nat)
    requires
        node_end(evs, p, deep) is Some,
    ensures
        event::kind_at(evs, p) is Some,
        event::kind_at(evs, p) != Some(Happening::SequenceEnd),
        event::kind_at(evs, p) != Some(Happening::MappingEnd),
{
}

proof fn lemma_block_entries(ts: Seq<Tok>, pos: int, room: nat, evs: Seq<Ev>, p: int)
    ensures
        is_items(grammar::block_entries(ts, pos, room), evs, p, room),
        grammar::block_entries(ts, pos, room) matches Ok((_, at)) ==> goes(ts, pos, at),
    decreases room, 3int, grammar::left(ts, pos),
{
    match grammar::kind_at(ts, pos) {
        Some(Lexeme::BlockEntry) => {
            let next = grammar::kind_at(ts, pos + 1);
            let empty = next == Some(Lexeme::BlockEntry) || next == Some(Lexeme::BlockEnd);
            lemma_node_unless(ts, pos + 1, room, empty, evs, p);
            if let Ok((entry, at)) = grammar::node_unless(ts, pos + 1, room, empty) {
                lemma_block_entries(ts, at, room, evs, p + entry.len());
                lemma_item_joined(
                    entry,
                    grammar::block_entries(ts, at, room),
                    evs,
                    p,
                    room,
                );
            }
        },
        Some(Lexeme::BlockEnd) => {
            let part = grammar::ev(ts, Happening::SequenceEnd, pos);
            if stands(evs, p, part) {
                assert(evs[p + 0] == part[0]);
            }
        },
        _ => {},
    }
}

proof fn lemma_indentless_entries(ts: Seq<Tok>, pos: int, room: nat, evs: Seq<Ev>, p: int)
    ensures
        is_items(grammar::indentless_entries(ts, pos, room), evs, p, room),
        grammar::indentless_entries(ts, pos, room) matches Ok((_, at)) ==> goes(ts, pos, at),
    decreases room, 3int, grammar::left(ts, pos),
{
    match grammar::kind_at(ts, pos) {
        Some(Lexeme::BlockEntry) => {
            let next = grammar::kind_at(ts, pos + 1);
            let empty = next == Some(Lexeme::BlockEntry) || next == Some(Lexeme::Key) || next
                == Some(Lexeme::Value) || next == Some(Lexeme::BlockEnd);
            lemma_node_unless(ts, pos + 1, room, empty, evs, p);
            if let Ok((entry, at)) = grammar::node_unless(ts, pos + 1, room, empty) {
                lemma_indentless_entries(ts, at, room, evs, p + entry.len());
                lemma_item_joined(
                    entry,
                    grammar::indentless_entries(ts, at, room),
                    evs,
                    p,
                    room,
                );
            }
        },
        _ => {
            let part = grammar::ev(ts, Happening::SequenceEnd, pos);
            if stands(evs, p, part) {
                assert(evs[p + 0] == part[0]);
            }
        },
    }
}

proof fn lemma_block_value(ts: Seq<Tok>, pos: int, room: nat, evs: Seq<Ev>, p: int)
    ensures
        is_node(grammar::block_value(ts, pos, room), evs, p, room),
        grammar::block_value(ts, pos, room) matches Ok((_, at)) ==> goes(ts, pos, at),
    decreases room, 2int, 0int,
{
    let next = grammar::kind_at(ts, pos + 1);
    let empty = next == Some(Lexeme::Key) || next == Some(Lexeme::BlockEnd);
    lemma_node_unless(ts, pos + 1, room, empty, evs, p);
    lemma_node_unless(ts, pos, room, true, evs, p);
}

proof fn lemma_block_pairs(ts: Seq<Tok>, pos: int, room: nat, evs: Seq<Ev>, p: int)
    ensures
        is_pairs(grammar::block_pairs(ts, pos, room), evs, p, room),
        grammar::block_pairs(ts, pos, room) matches Ok((_, at)) ==> goes(ts, pos, at),
    decreases room, 3int, grammar::left(ts, pos),
{
    match grammar::kind_at(ts, pos) {
        Some(Lexeme::Key) => {
            let next = grammar::kind_at(ts, pos + 1);
            let empty = next == Some(Lexeme::Value) || next == Some(Lexeme::Key) || next == Some(
                Lexeme::BlockEnd,
            );
            lemma_node_unless(ts, pos + 1, room, empty, evs, p);
            if let Ok((key, middle)) = grammar::node_unless(ts, pos + 1, room, empty) {
                lemma_block_value(ts, middle, room, evs, p + key.len());
                if let Ok((value, at)) = grammar::block_value(ts, middle, room) {
                    lemma_block_pairs(ts, at, room, evs, p + key.len() + value.len());
                    lemma_pair_joined(
                        key,
                        value,
                        grammar::block_pairs(ts, at, room),
                        evs,
                        p,
                        room,
                    );
                }
            }
        },
        Some(Lexeme::BlockEnd) => {
            let part = grammar::ev(ts, Happening::MappingEnd, pos);
            if stands(evs, p, part) {
                assert(evs[p + 0] == part[0]);
            }
        },
        _ => {},
    }
}

/// The part is a node and the end of the mapping that the node is the value of.
pub open spec fn is_last_value(part: Seq<Ev>, evs: Seq<Ev>, p: int, deep: nat) -> bool {
    let end = p + part.len() - 1;
    stands(evs, p, part) ==> p < end && node_end(evs, p, deep) == Some(end) && event::kind_at(
        evs,
        end,
    ) == Some(Happening::MappingEnd)
}

proof fn lemma_flow_pair_value(ts: Seq<Tok>, pos: int, room: nat, evs: Seq<Ev>, p: int)
    requires
        grammar::kind_at(ts, pos) == Some(Lexeme::Value),
    ensures
        match grammar::flow_pair_value(ts, pos, room) {
            Ok((part, at)) => goes(ts, pos, at) && is_last_value(part, evs, p, room),
            Err(h) => is_parse_fault(h.fault),
        },
    decreases room, 2int, 0int,
{
    let empty = grammar::flow_value_ends(ts, pos + 1);
    lemma_node_unless(ts, pos + 1, room, empty, evs, p);
    if let Ok((value, at)) = grammar::node_unless(ts, pos + 1, room, empty) {
        let end = grammar::ev(ts, Happening::MappingEnd, at);
        if stands(evs, p, value + end) {
            lemma_stands(evs, p, value, end);
            assert(evs[p + value.len() + 0] == end[0]);
        }
    }
}

/// A mapping of one pair whose key stands behind its start.
proof fn lemma_single_pair(
    mapping: Seq<Ev>,
    key: Seq<Ev>,
    last: Parsed,
    evs: Seq<Ev>,
    p: int,
    deep: nat,
)
    requires
        mapping.len() == 1,
        mapping[0].kind is MappingStart,
        stands(evs, p + 1, key) ==> key.len() > 0 && node_end(evs, p + 1, deep) == Some(
            p + 1 + key.len(),
        ),
        match last {
            Ok((part, _)) => is_last_value(part, evs, p + 1 + key.len(), deep),
            Err(h) => is_parse_fault(h.fault),
        },
    ensures
        is_node(grammar::joined(mapping + key, last), evs, p, deep + 1),
{
    if let Ok((part, _)) = last {
        if stands(evs, p, mapping + key + part) {
            lemma_stands(evs, p, mapping + key, part);
            lemma_stands(evs, p, mapping, key);
            assert(evs[p + 0] == mapping[0]);
            lemma_node_starts(evs, p + 1, deep);
            let end = p + key.len() + part.len();
            assert(pairs_end(evs, end, deep) == Some(end + 1));
            assert(pairs_end(evs, p + 1, deep) == pairs_end(evs, end, deep));
        }
    }
}

proof fn lemma_flow_entry(ts: Seq<Tok>, pos: int, room: nat, evs: Seq<Ev>, p: int)
    ensures
        is_node(grammar::flow_entry(ts, pos, room), evs, p, room),
        grammar::flow_entry(ts, pos, room) matches Ok((_, at)) ==> goes(ts, pos, at),
    decreases room, 2int, 1int,
{
    let mapping = grammar::ev(ts, Happening::MappingStart { anchor: None, tag: None }, pos);
    let inner = (room - 1) as nat;
    if grammar::kind_at(ts, pos) == Some(Lexeme::Value) {
        if room > 0 {
            let key = grammar::empty_node(ts, pos, grammar::bare());
            lemma_node_unless(ts, pos, inner, true, evs, p + 1);
            lemma_flow_pair_value(ts, pos, inner, evs, p + 1 + key.len());
            lemma_single_pair(
                mapping,
                key,
                grammar::flow_pair_value(ts, pos, inner),
                evs,
                p,
                inner,
            );
        }
    } else {
        lemma_node(ts, pos, room, evs, p);
        if let Ok((entry, at)) = grammar::node(ts, pos, room) {
            let h = grammar::height(entry, entry.len() as int);
            if grammar::kind_at(ts, at) == Some(Lexeme::Value) && h < room {
                grammar::lemma_height(entry, entry.len() as int);
                lemma_node(ts, pos, room, evs, p + 1);
                if stands(evs, p + 1, entry) {
                    lemma_node_shrinks(evs, p + 1, entry, room, inner);
                }
                lemma_flow_pair_value(ts, at, inner, evs, p + 1 + entry.len());
                lemma_single_pair(
                    mapping,
                    entry,
                    grammar::flow_pair_value(ts, at, inner),
                    evs,
                    p,
                    inner,
                );
            }
        }
    }
}

proof fn lemma_flow_entries(ts: Seq<Tok>, pos: int, room: nat, evs: Seq<Ev>, p: int)
    ensures
        is_items(grammar::flow_entries(ts, pos, room), evs, p, room),
        grammar::flow_entries(ts, pos, room) matches Ok((_, at)) ==> goes(ts, pos, at),
    decreases room, 3int, grammar::left(ts, pos),
{
    match grammar::kind_at(ts, pos) {
        Some(Lexeme::FlowSequenceEnd) => {
            lemma_end(ts, pos, evs, p, room);
        },
        Some(Lexeme::FlowEntry) => {},
        _ => {
            lemma_flow_entry(ts, pos, room, evs, p);
            if let Ok((entry, at)) = grammar::flow_entry(ts, pos, room) {
                let next = p + entry.len();
                if grammar::kind_at(ts, at) == Some(Lexeme::FlowEntry) && 0 <= pos {
                    lemma_flow_entries(ts, at + 1, room, evs, next);
                    lemma_item_joined(
                        entry,
                        grammar::flow_entries(ts, at + 1, room),
                        evs,
                        p,
                        room,
                    );
                } else {
                    let end: Parsed = Ok((grammar::ev(ts, Happening::SequenceEnd, at), at + 1));
                    lemma_end(ts, at, evs, next, room);
                    lemma_item_joined(entry, end, evs, p, room);
                }
            }
        },
    }
}

/// The end of a collection.
proof fn lemma_end(ts: Seq<Tok>, at: int, evs: Seq<Ev>, p: int, deep: nat)
    ensures
        is_items(Ok((grammar::ev(ts, Happening::SequenceEnd, at), at + 1)), evs, p, deep),
        is_pairs(Ok((grammar::ev(ts, Happening::MappingEnd, at), at + 1)), evs, p, deep),
{
    let items = grammar::ev(ts, Happening::SequenceEnd, at);
    let pairs = grammar::ev(ts, Happening::MappingEnd, at);
    if stands(evs, p, items) {
        assert(evs[p + 0] == items[0]);
    }
    if stands(evs, p, pairs) {
        assert(evs[p + 0] == pairs[0]);
    }
}

proof fn lemma_flow_key(ts: Seq<Tok>, pos: int, room: nat, evs: Seq<Ev>, p: int)
    ensures
        is_node(grammar::flow_key(ts, pos, room), evs, p, room),
        grammar::flow_key(ts, pos, room) matches Ok((_, at)) ==> goes(ts, pos, at),
    decreases room, 2int, 0int,
{
    let empty = grammar::kind_at(ts, pos + 1) == Some(Lexeme::Value) || grammar::flow_value_ends(
        ts,
        pos + 1,
    );
    lemma_node_unless(ts, pos + 1, room, empty, evs, p);
    lemma_node_unless(ts, pos, room, true, evs, p);
    lemma_node_unless(ts, pos, room, false, evs, p);
}

proof fn lemma_flow_value(ts: Seq<Tok>, pos: int, room: nat, evs: Seq<Ev>, p: int)
    ensures
        is_node(grammar::flow_value(ts, pos, room), evs, p, room),
        grammar::flow_value(ts, pos, room) matches Ok((_, at)) ==> goes(ts, pos, at),
    decreases room, 2int, 0int,
{
    lemma_node_unless(ts, pos + 1, room, grammar::flow_value_ends(ts, pos + 1), evs, p);
    lemma_node_unless(ts, pos, room, true, evs, p);
}

proof fn lemma_flow_pairs(ts: Seq<Tok>, pos: int, room: nat, evs: Seq<Ev>, p: int)
    ensures
        is_pairs(grammar::flow_pairs(ts, pos, room), evs, p, room),
        grammar::flow_pairs(ts, pos, room) matches Ok((_, at)) ==> goes(ts, pos, at),
    decreases room, 3int, grammar::left(ts, pos),
{
    match grammar::kind_at(ts, pos) {
        Some(Lexeme::FlowMappingEnd) => {
            lemma_end(ts, pos, evs, p, room);
        },
        Some(Lexeme::FlowEntry) => {},
        _ => {
            if pos < 0 {
                assert(grammar::node(ts, pos, room) matches Ok((_, at)) ==> at == pos);
            }
            lemma_flow_key(ts, pos, room, evs, p);
            assert(grammar::flow_pair(ts, pos, room) is Err ==> grammar::flow_pairs(
                ts,
                pos,
                room,
            ) is Err);
            if let Ok((key, middle)) = grammar::flow_key(ts, pos, room) {
                lemma_flow_value(ts, middle, room, evs, p + key.len());
                if let Ok((value, at)) = grammar::flow_value(ts, middle, room) {
                    let pair: Parsed = Ok((key + value, at));
                    assert(grammar::flow_pair(ts, pos, room) == pair);
                    let next = p + key.len() + value.len();
                    if grammar::kind_at(ts, at) == Some(Lexeme::FlowEntry) && 0 <= pos {
                        lemma_flow_pairs(ts, at + 1, room, evs, next);
                        lemma_pair_joined(
                            key,
                            value,
                            grammar::flow_pairs(ts, at + 1, room),
                            evs,
                            p,
                            room,
                        );
                    } else {
                        let end: Parsed = Ok((grammar::ev(ts, Happening::MappingEnd, at), at + 1));
                        lemma_end(ts, at, evs, next, room);
                        lemma_pair_joined(key, value, end, evs, p, room);
                    }
                }
            }
        },
    }
}

// ---------------------------------------------------------------------------
// Documents
// ---------------------------------------------------------------------------

proof fn lemma_documents(ts: Seq<Tok>, pos: int, room: nat, evs: Seq<Ev>, p: int)
    ensures
        match grammar::documents(ts, pos, room) {
            Ok((part, at)) => {
                &&& stands(evs, p, part) && p + part.len() == evs.len() ==> are_documents(
                    evs,
                    p,
                    room,
                )
                &&& grammar::is_framed(ts) && 0 <= pos < ts.len() ==> at == ts.len()
            },
            Err(h) => is_parse_fault(h.fault),
        },
    decreases grammar::left(ts, pos),
{
    match grammar::kind_at(ts, pos) {
        Some(Lexeme::DocumentEnd) => {
            lemma_documents(ts, pos + 1, room, evs, p);
        },
        Some(kind) if kind !is StreamEnd => {
            let explicit = kind == Lexeme::DocumentStart;
            let from = if explicit { pos + 1 } else { pos };
            lemma_node_unless(ts, from, room, true, evs, p + 1);
            lemma_node_unless(ts, from, room, false, evs, p + 1);
            if let Ok((events, at)) = grammar::root(ts, from, room) {
                let start = grammar::ev(ts, Happening::DocumentStart, pos);
                let end = grammar::ev(ts, Happening::DocumentEnd, at);
                if let Ok((all, next)) = grammar::document(ts, pos, room) {
                    lemma_documents(ts, next, room, evs, p + all.len());
                    if let Ok((rest, _)) = grammar::documents(ts, next, room) {
                        let part = all + rest;
                        if stands(evs, p, part) && p + part.len() == evs.len() {
                            lemma_stands(evs, p, all, rest);
                            lemma_stands(evs, p, start + events, end);
                            lemma_stands(evs, p, start, events);
                            assert(evs[p + 0] == start[0]);
                            assert(evs[p + 1 + events.len() + 0] == end[0]);
                        }
                    }
                }
            }
        },
        _ => {
            let part = grammar::ev(ts, Happening::StreamEnd, pos);
            if stands(evs, p, part) {
                assert(evs[p + 0] == part[0]);
            }
        },
    }
}

/// A parse that succeeds has passed over all the tokens of a stream that ends with
/// its last token.
pub proof fn law_whole_stream_is_read(ts: Seq<Tok>, room: nat)
    requires
        grammar::is_framed(ts),
    ensures
        grammar::whole(ts, room) matches Ok((_, at)) ==> at == ts.len(),
{
    lemma_documents(ts, 1, room, Seq::empty(), 0);
}

/// What a parse gives is a whole event stream: it begins with the start of the
/// stream and ends with its end, each document is one node between its start and
/// its end, every collection is closed by its own end, every key has a value, and
/// collections nest no deeper than the room that was given. Otherwise the fault
/// says where it is.
pub proof fn law_events_are_balanced(ts: Seq<Tok>, room: nat)
    ensures
        match grammar::stream(ts, room) {
            Ok(evs) => is_stream(evs, room),
            Err(f) => is_parse_fault(f),
        },
{
    lemma_documents(ts, 1, room, Seq::empty(), 0);
    if let Ok(evs) = grammar::stream(ts, room) {
        lemma_documents(ts, 1, room, evs, 1);
        if let Ok((part, _)) = grammar::documents(ts, 1, room) {
            let start = grammar::ev(ts, Happening::StreamStart, 0);
            assert(stands(evs, 0, start + part));
            lemma_stands(evs, 0, start, part);
            assert(evs[0] == start[0]);
        }
    }
}

} // verus!
