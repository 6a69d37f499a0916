//! An anchor and a tag may come in either order.

use crate::event::Happening;
use crate::parser::grammar;
use crate::parser::grammar::Parsed;
use crate::scanner::token::{Lexeme, Tok};
use vstd::prelude::*;

verus! {

/// The tokens are the same from `from` on, and in the same places.
pub open spec fn same_from(ts: Seq<Tok>, us: Seq<Tok>, from: int) -> bool {
    &&& ts.len() == us.len()
    &&& forall|i: int| 0 <= i < ts.len() ==> (#[trigger] ts[i]).span == us[i].span
    &&& forall|i: int| 0 <= i < ts.len() && from <= i ==> (#[trigger] ts[i]).kind == us[i].kind
}

/// The same token is found.
proof fn lemma_here(ts: Seq<Tok>, us: Seq<Tok>, from: int, pos: int)
    requires
        same_from(ts, us, from),
    ensures
        from <= pos ==> grammar::kind_at(ts, pos) == grammar::kind_at(us, pos),
        grammar::span_at(ts, pos) == grammar::span_at(us, pos),
{
    if 0 <= pos < ts.len() {
        assert(ts[pos].span == us[pos].span);
        if from <= pos {
            assert(ts[pos].kind == us[pos].kind);
        }
    } else if ts.len() > 0 {
        assert(ts[ts.len() - 1].span == us[ts.len() - 1].span);
    }
}

/// Both parses gave the same and went forward.
pub open spec fn agree(parsed: Parsed, other: Parsed, pos: int) -> bool {
    parsed == other && (parsed matches Ok((_, at)) ==> pos <= at)
}

proof fn lemma_properties(
    ts: Seq<Tok>,
    us: Seq<Tok>,
    from: int,
    pos: int,
    props: grammar::Properties,
)
    requires
        same_from(ts, us, from),
        from <= pos,
    ensures
        grammar::properties(ts, pos, props) == grammar::properties(us, pos, props),
        grammar::properties(ts, pos, props) matches Ok((_, at)) ==> pos <= at,
    decreases grammar::left(ts, pos),
{
    lemma_here(ts, us, from, pos);
    match grammar::kind_at(ts, pos) {
        Some(Lexeme::Anchor(name)) => {
            let more = grammar::Properties { anchor: Some(name), ..props };
            lemma_properties(ts, us, from, pos + 1, more);
        },
        Some(Lexeme::Tag(tag)) => {
            let more = grammar::Properties { tag: Some(tag), ..props };
            lemma_properties(ts, us, from, pos + 1, more);
        },
        _ => {},
    }
}

proof fn lemma_past_properties(ts: Seq<Tok>, us: Seq<Tok>, from: int, pos: int)
    requires
        same_from(ts, us, from),
        from <= pos,
    ensures
        grammar::past_properties(ts, pos) == grammar::past_properties(us, pos),
        grammar::is_collection(ts, pos) == grammar::is_collection(us, pos),
        pos <= grammar::past_properties(ts, pos),
    decreases grammar::left(ts, pos),
{
    lemma_here(ts, us, from, pos);
    match grammar::kind_at(ts, pos) {
        Some(Lexeme::Anchor(_)) => {
            lemma_past_properties(ts, us, from, pos + 1);
        },
        Some(Lexeme::Tag(_)) => {
            lemma_past_properties(ts, us, from, pos + 1);
        },
        _ => {},
    }
}

proof fn lemma_behind(
    ts: Seq<Tok>,
    us: Seq<Tok>,
    from: int,
    at: int,
    props: grammar::Properties,
    room: nat,
)
    requires
        same_from(ts, us, from),
        from <= at,
    ensures
        agree(grammar::leaf(ts, at, props), grammar::leaf(us, at, props), at),
        room > 0 ==> agree(
            grammar::collection(ts, at, props, (room - 1) as nat),
            grammar::collection(us, at, props, (room - 1) as nat),
            at,
        ),
    decreases room, 0int, 0int,
{
    lemma_here(ts, us, from, at);
    if room > 0 {
        let inner = (room - 1) as nat;
        lemma_block_entries(ts, us, from, at + 1, inner);
        lemma_block_pairs(ts, us, from, at + 1, inner);
        lemma_indentless_entries(ts, us, from, at, inner);
        lemma_flow_entries(ts, us, from, at + 1, inner);
        lemma_flow_pairs(ts, us, from, at + 1, inner);
    }
}

proof fn lemma_node(ts: Seq<Tok>, us: Seq<Tok>, from: int, pos: int, room: nat)
    requires
        same_from(ts, us, from),
        from <= pos,
    ensures
        agree(grammar::node(ts, pos, room), grammar::node(us, pos, room), pos),
    decreases room, 1int, 0int,
{
    lemma_here(ts, us, from, pos);
    lemma_properties(ts, us, from, pos, grammar::bare());
    lemma_past_properties(ts, us, from, pos);
    if let Ok((props, at)) = grammar::properties(ts, pos, grammar::bare()) {
        lemma_here(ts, us, from, at);
        lemma_behind(ts, us, from, at, props, room);
    }
}

proof fn lemma_node_unless(
    ts: Seq<Tok>,
    us: Seq<Tok>,
    from: int,
    pos: int,
    room: nat,
    empty: bool,
)
    requires
        same_from(ts, us, from),
        from <= pos,
    ensures
        agree(
            grammar::node_unless(ts, pos, room, empty),
            grammar::node_unless(us, pos, room, empty),
            pos,
        ),
    decreases room, 2int, 0int,
{
    lemma_here(ts, us, from, pos);
    lemma_node(ts, us, from, pos, room);
}

proof fn lemma_block_entries(ts: Seq<Tok>, us: Seq<Tok>, from: int, pos: int, room: nat)
    requires
        same_from(ts, us, from),
        from <= pos,
    ensures
        agree(grammar::block_entries(ts, pos, room), grammar::block_entries(us, pos, room), pos),
    decreases room, 4int, grammar::left(ts, pos),
{
    lemma_here(ts, us, from, pos);
    lemma_here(ts, us, from, pos + 1);
    if grammar::kind_at(ts, pos) == Some(Lexeme::BlockEntry) {
        let next = grammar::kind_at(ts, pos + 1);
        let empty = next == Some(Lexeme::BlockEntry) || next == Some(Lexeme::BlockEnd);
        lemma_node_unless(ts, us, from, pos + 1, room, empty);
        if let Ok((_, at)) = grammar::node_unless(ts, pos + 1, room, empty) {
            lemma_block_entries(ts, us, from, at, room);
        }
    }
}

proof fn lemma_indentless_entries(ts: Seq<Tok>, us: Seq<Tok>, from: int, pos: int, room: nat)
    requires
        same_from(ts, us, from),
        from <= pos,
    ensures
        agree(
            grammar::indentless_entries(ts, pos, room),
            grammar::indentless_entries(us, pos, room),
            pos,
        ),
    decreases room, 4int, grammar::left(ts, pos),
{
    lemma_here(ts, us, from, pos);
    lemma_here(ts, us, from, pos + 1);
    if grammar::kind_at(ts, pos) == Some(Lexeme::BlockEntry) {
        let next = grammar::kind_at(ts, pos + 1);
        let empty = next == Some(Lexeme::BlockEntry) || next == Some(Lexeme::Key) || next == Some(
            Lexeme::Value,
        ) || next == Some(Lexeme::BlockEnd);
        lemma_node_unless(ts, us, from, pos + 1, room, empty);
        if let Ok((_, at)) = grammar::node_unless(ts, pos + 1, room, empty) {
            lemma_indentless_entries(ts, us, from, at, room);
        }
    }
}

proof fn lemma_block_value(ts: Seq<Tok>, us: Seq<Tok>, from: int, pos: int, room: nat)
    requires
        same_from(ts, us, from),
        from <= pos,
    ensures
        agree(grammar::block_value(ts, pos, room), grammar::block_value(us, pos, room), pos),
    decreases room, 3int, 0int,
{
    lemma_here(ts, us, from, pos);
    lemma_here(ts, us, from, pos + 1);
    let next = grammar::kind_at(ts, pos + 1);
    let empty = next == Some(Lexeme::Key) || next == Some(Lexeme::BlockEnd);
    lemma_node_unless(ts, us, from, pos + 1, room, empty);
}

proof fn lemma_block_pairs(ts: Seq<Tok>, us: Seq<Tok>, from: int, pos: int, room: nat)
    requires
        same_from(ts, us, from),
        from <= pos,
    ensures
        agree(grammar::block_pairs(ts, pos, room), grammar::block_pairs(us, pos, room), pos),
    decreases room, 4int, grammar::left(ts, pos),
{
    lemma_here(ts, us, from, pos);
    lemma_here(ts, us, from, pos + 1);
    if grammar::kind_at(ts, pos) == Some(Lexeme::Key) {
        let next = grammar::kind_at(ts, pos + 1);
        let empty = next == Some(Lexeme::Value) || next == Some(Lexeme::Key) || next == Some(
            Lexeme::BlockEnd,
        );
        lemma_node_unless(ts, us, from, pos + 1, room, empty);
        if let Ok((_, middle)) = grammar::node_unless(ts, pos + 1, room, empty) {
            lemma_block_value(ts, us, from, middle, room);
            if let Ok((_, at)) = grammar::block_value(ts, middle, room) {
                lemma_block_pairs(ts, us, from, at, room);
            }
        }
    }
}

proof fn lemma_flow_pair_value(ts: Seq<Tok>, us: Seq<Tok>, from: int, pos: int, room: nat)
    requires
        same_from(ts, us, from),
        from <= pos,
    ensures
        agree(
            grammar::flow_pair_value(ts, pos, room),
            grammar::flow_pair_value(us, pos, room),
            pos,
        ),
    decreases room, 3int, 0int,
{
    lemma_here(ts, us, from, pos + 1);
    let empty = grammar::flow_value_ends(ts, pos + 1);
    lemma_node_unless(ts, us, from, pos + 1, room, empty);
    if let Ok((_, at)) = grammar::node_unless(ts, pos + 1, room, empty) {
        lemma_here(ts, us, from, at);
    }
}

proof fn lemma_flow_entry(ts: Seq<Tok>, us: Seq<Tok>, from: int, pos: int, room: nat)
    requires
        same_from(ts, us, from),
        from <= pos,
    ensures
        agree(grammar::flow_entry(ts, pos, room), grammar::flow_entry(us, pos, room), pos),
    decreases room, 3int, 1int,
{
    lemma_here(ts, us, from, pos);
    if room > 0 {
        lemma_flow_pair_value(ts, us, from, pos, (room - 1) as nat);
    }
    lemma_node(ts, us, from, pos, room);
    if let Ok((_, at)) = grammar::node(ts, pos, room) {
        lemma_here(ts, us, from, at);
        if room > 0 {
            lemma_flow_pair_value(ts, us, from, at, (room - 1) as nat);
        }
    }
}

proof fn lemma_flow_entries(ts: Seq<Tok>, us: Seq<Tok>, from: int, pos: int, room: nat)
    requires
        same_from(ts, us, from),
        from <= pos,
    ensures
        agree(grammar::flow_entries(ts, pos, room), grammar::flow_entries(us, pos, room), pos),
    decreases room, 4int, grammar::left(ts, pos),
{
    lemma_here(ts, us, from, pos);
    lemma_flow_entry(ts, us, from, pos, room);
    if let Ok((_, at)) = grammar::flow_entry(ts, pos, room) {
        lemma_here(ts, us, from, at);
        if grammar::kind_at(ts, at) == Some(Lexeme::FlowEntry) && 0 <= pos {
            lemma_flow_entries(ts, us, from, at + 1, room);
        }
    }
}

proof fn lemma_flow_pair(ts: Seq<Tok>, us: Seq<Tok>, from: int, pos: int, room: nat)
    requires
        same_from(ts, us, from),
        from <= pos,
    ensures
        agree(grammar::flow_pair(ts, pos, room), grammar::flow_pair(us, pos, room), pos),
    decreases room, 3int, 1int,
{
    lemma_here(ts, us, from, pos);
    lemma_here(ts, us, from, pos + 1);
    let empty = grammar::kind_at(ts, pos + 1) == Some(Lexeme::Value) || grammar::flow_value_ends(
        ts,
        pos + 1,
    );
    lemma_node(ts, us, from, pos, room);
    lemma_node_unless(ts, us, from, pos + 1, room, empty);
    if let Ok((_, middle)) = grammar::flow_key(ts, pos, room) {
        lemma_here(ts, us, from, middle);
        lemma_here(ts, us, from, middle + 1);
        let none = grammar::flow_value_ends(ts, middle + 1);
        lemma_node_unless(ts, us, from, middle + 1, room, none);
    }
}

proof fn lemma_flow_pairs(ts: Seq<Tok>, us: Seq<Tok>, from: int, pos: int, room: nat)
    requires
        same_from(ts, us, from),
        from <= pos,
    ensures
        agree(grammar::flow_pairs(ts, pos, room), grammar::flow_pairs(us, pos, room), pos),
    decreases room, 4int, grammar::left(ts, pos),
{
    lemma_here(ts, us, from, pos);
    lemma_flow_pair(ts, us, from, pos, room);
    if let Ok((_, at)) = grammar::flow_pair(ts, pos, room) {
        lemma_here(ts, us, from, at);
        if grammar::kind_at(ts, at) == Some(Lexeme::FlowEntry) && 0 <= pos {
            lemma_flow_pairs(ts, us, from, at + 1, room);
        }
    }
}

/// The tokens with what stands at `pos` and behind it exchanged.
pub open spec fn swapped(ts: Seq<Tok>, pos: int) -> Seq<Tok> {
    ts.update(pos, Tok { kind: ts[pos + 1].kind, ..ts[pos] }).update(
        pos + 1,
        Tok { kind: ts[pos].kind, ..ts[pos + 1] },
    )
}

/// The anchor and the tag that the first event of a node carries.
pub open spec fn carried(kind: Happening) -> grammar::Properties {
    match kind {
        Happening::Scalar { anchor, tag, .. } => grammar::Properties { anchor, tag },
        Happening::SequenceStart { anchor, tag } => grammar::Properties { anchor, tag },
        Happening::MappingStart { anchor, tag } => grammar::Properties { anchor, tag },
        _ => grammar::bare(),
    }
}

/// The node behind both properties carries both.
proof fn lemma_carries(
    ts: Seq<Tok>,
    at: int,
    props: grammar::Properties,
    room: nat,
)
    requires
        props.anchor is Some,
    ensures
        grammar::leaf(ts, at, props) matches Ok((evs, _)) ==> evs.len() > 0 && carried(evs[0].kind)
            == props,
        grammar::collection(ts, at, props, room) matches Ok((evs, _)) ==> evs.len() > 0 && carried(
            evs[0].kind,
        ) == props,
{
}

/// A node may have its anchor before its tag or behind it: the parse is the same, and
/// the node carries both.
pub proof fn law_properties_come_in_either_order(ts: Seq<Tok>, pos: int, room: nat)
    requires
        grammar::kind_at(ts, pos) matches Some(kind) && kind is Anchor,
        grammar::kind_at(ts, pos + 1) matches Some(kind) && kind is Tag,
    ensures
        grammar::node(swapped(ts, pos), pos, room) == grammar::node(ts, pos, room),
        grammar::node(ts, pos, room) matches Ok((evs, _)) ==> evs.len() > 0 && carried(evs[0].kind)
            == (grammar::Properties {
            anchor: Some(ts[pos].kind->Anchor_0),
            tag: Some(ts[pos + 1].kind->Tag_0),
        }),
{
    let us = swapped(ts, pos);
    let anchor = ts[pos].kind->Anchor_0;
    let tag = ts[pos + 1].kind->Tag_0;
    let both = grammar::Properties { anchor: Some(anchor), tag: Some(tag) };
    let from = pos + 2;
    assert(same_from(ts, us, from));
    lemma_here(ts, us, from, pos);
    lemma_properties(ts, us, from, from, both);
    lemma_past_properties(ts, us, from, from);
    assert(grammar::kind_at(us, pos) == Some(Lexeme::Tag(tag)));
    assert(grammar::kind_at(us, pos + 1) == Some(Lexeme::Anchor(anchor)));
    assert(grammar::past_properties(ts, pos + 1) == grammar::past_properties(ts, from));
    assert(grammar::past_properties(us, pos + 1) == grammar::past_properties(us, from));
    let after_anchor = grammar::Properties { anchor: Some(anchor), tag: None };
    let after_tag = grammar::Properties { anchor: None, tag: Some(tag) };
    assert(grammar::properties(ts, pos, grammar::bare()) == grammar::properties(
        ts,
        pos + 1,
        after_anchor,
    ));
    assert(grammar::properties(ts, pos + 1, after_anchor) == grammar::properties(ts, from, both));
    assert(grammar::properties(us, pos, grammar::bare()) == grammar::properties(
        us,
        pos + 1,
        after_tag,
    ));
    assert(grammar::properties(us, pos + 1, after_tag) == grammar::properties(us, from, both));
    if let Ok((props, at)) = grammar::properties(ts, from, both) {
        lemma_here(ts, us, from, at);
        lemma_behind(ts, us, from, at, props, room);
        assert(props == both);
        lemma_carries(ts, at, props, (room - 1) as nat);
    }
}

} // verus!
