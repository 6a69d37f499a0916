//! A higher limit never changes a success.

use crate::error::Fault;
use crate::event::Ev;
use crate::options::{Limits, ParseOptions};
use crate::parser;
use crate::parser::grammar;
use crate::parser::grammar::Parsed;
use crate::scanner::model;
use crate::scanner::model::ScanState;
use crate::scanner::token::{Lexeme, Tok};
use vstd::prelude::*;

verus! {

/// No limit that parsing knows is lower.
pub open spec fn allows_more(limits: Limits, more: Limits) -> bool {
    limits.max_depth <= more.max_depth && limits.max_input_bytes <= more.max_input_bytes
}

// ---------------------------------------------------------------------------
// Tokens
// ---------------------------------------------------------------------------

/// Behind its start, a scan knows no limit.
proof fn lemma_run(text: Seq<char>, limits: Limits, more: Limits, st: ScanState)
    requires
        st.started,
    ensures
        model::run(text, limits, st) == model::run(text, more, st),
    decreases model::remaining(text, st),
{
    if !(st.ended || !model::inside(text, st)) {
        model::lemma_fetch(text, limits, st);
        model::lemma_started(text, limits, st);
        if let Ok(next) = model::fetch(text, limits, st) {
            lemma_run(text, limits, more, next);
        }
    }
}

/// A higher limit on the size of the input changes no tokens.
pub proof fn lemma_tokens(text: Seq<char>, limits: Limits, more: Limits)
    requires
        limits.max_input_bytes <= more.max_input_bytes,
    ensures
        model::tokens(text, limits) matches Ok(ts) ==> model::tokens(text, more) == Ok::<
            Seq<Tok>,
            Fault,
        >(ts),
{
    let first = model::initial_state();
    if let Ok(next) = model::start(text, limits, first) {
        assert(model::fetch(text, limits, first) == model::fetch(text, more, first));
        lemma_run(text, limits, more, next);
    }
}

// ---------------------------------------------------------------------------
// Events
// ---------------------------------------------------------------------------

/// What the first parse gave, the second gives.
pub open spec fn keeps(first: Parsed, second: Parsed) -> bool {
    first is Ok ==> second == first
}

proof fn lemma_node(ts: Seq<Tok>, pos: int, room: nat, more: nat)
    requires
        room <= more,
    ensures
        keeps(grammar::node(ts, pos, room), grammar::node(ts, pos, more)),
    decreases room, 1int, 0int,
{
    grammar::lemma_past_properties(ts, pos, grammar::bare());
    if let Ok((props, at)) = grammar::properties(ts, pos, grammar::bare()) {
        if room > 0 {
            lemma_collection(ts, at, props, room, more);
        }
    }
}

proof fn lemma_collection(
    ts: Seq<Tok>,
    at: int,
    props: grammar::Properties,
    room: nat,
    more: nat,
)
    requires
        0 < room <= more,
    ensures
        keeps(
            grammar::collection(ts, at, props, (room - 1) as nat),
            grammar::collection(ts, at, props, (more - 1) as nat),
        ),
    decreases room, 0int, 0int,
{
    let inner = (room - 1) as nat;
    let wider = (more - 1) as nat;
    match grammar::kind_at(ts, at) {
        Some(Lexeme::BlockSequenceStart) => {
            lemma_block_entries(ts, at + 1, inner, wider);
        },
        Some(Lexeme::BlockMappingStart) => {
            lemma_block_pairs(ts, at + 1, inner, wider);
        },
        Some(Lexeme::FlowSequenceStart) => {
            lemma_flow_entries(ts, at + 1, inner, wider);
        },
        Some(Lexeme::FlowMappingStart) => {
            lemma_flow_pairs(ts, at + 1, inner, wider);
        },
        _ => {
            lemma_indentless_entries(ts, at, inner, wider);
        },
    }
}

proof fn lemma_node_unless(ts: Seq<Tok>, pos: int, room: nat, more: nat, empty: bool)
    requires
        room <= more,
    ensures
        keeps(
            grammar::node_unless(ts, pos, room, empty),
            grammar::node_unless(ts, pos, more, empty),
        ),
    decreases room, 2int, 0int,
{
    lemma_node(ts, pos, room, more);
}

proof fn lemma_block_entries(ts: Seq<Tok>, pos: int, room: nat, more: nat)
    requires
        room <= more,
    ensures
        keeps(grammar::block_entries(ts, pos, room), grammar::block_entries(ts, pos, more)),
    decreases room, 4int, grammar::left(ts, pos),
{
    if grammar::kind_at(ts, pos) == Some(Lexeme::BlockEntry) {
        let next = grammar::kind_at(ts, pos + 1);
        let empty = next == Some(Lexeme::BlockEntry) || next == Some(Lexeme::BlockEnd);
        lemma_node_unless(ts, pos + 1, room, more, empty);
        if let Ok((_, at)) = grammar::node_unless(ts, pos + 1, room, empty) {
            if pos < at {
                lemma_block_entries(ts, at, room, more);
            }
        }
    }
}

proof fn lemma_indentless_entries(ts: Seq<Tok>, pos: int, room: nat, more: nat)
    requires
        room <= more,
    ensures
        keeps(
            grammar::indentless_entries(ts, pos, room),
            grammar::indentless_entries(ts, pos, more),
        ),
    decreases room, 4int, grammar::left(ts, pos),
{
    if grammar::kind_at(ts, pos) == Some(Lexeme::BlockEntry) {
        let next = grammar::kind_at(ts, pos + 1);
        let empty = next == Some(Lexeme::BlockEntry) || next == Some(Lexeme::Key) || next == Some(
            Lexeme::Value,
        ) || next == Some(Lexeme::BlockEnd);
        lemma_node_unless(ts, pos + 1, room, more, empty);
        if let Ok((_, at)) = grammar::node_unless(ts, pos + 1, room, empty) {
            if pos < at {
                lemma_indentless_entries(ts, at, room, more);
            }
        }
    }
}

proof fn lemma_block_value(ts: Seq<Tok>, pos: int, room: nat, more: nat)
    requires
        room <= more,
    ensures
        keeps(grammar::block_value(ts, pos, room), grammar::block_value(ts, pos, more)),
    decreases room, 3int, 0int,
{
    let next = grammar::kind_at(ts, pos + 1);
    let empty = next == Some(Lexeme::Key) || next == Some(Lexeme::BlockEnd);
    lemma_node_unless(ts, pos + 1, room, more, empty);
}

proof fn lemma_block_pairs(ts: Seq<Tok>, pos: int, room: nat, more: nat)
    requires
        room <= more,
    ensures
        keeps(grammar::block_pairs(ts, pos, room), grammar::block_pairs(ts, pos, more)),
    decreases room, 4int, grammar::left(ts, pos),
{
    if grammar::kind_at(ts, pos) == Some(Lexeme::Key) {
        let next = grammar::kind_at(ts, pos + 1);
        let empty = next == Some(Lexeme::Value) || next == Some(Lexeme::Key) || next == Some(
            Lexeme::BlockEnd,
        );
        lemma_node_unless(ts, pos + 1, room, more, empty);
        if let Ok((_, middle)) = grammar::node_unless(ts, pos + 1, room, empty) {
            lemma_block_value(ts, middle, room, more);
            if let Ok((_, at)) = grammar::block_value(ts, middle, room) {
                if pos < at {
                    lemma_block_pairs(ts, at, room, more);
                }
            }
        }
    }
}

proof fn lemma_flow_pair_value(ts: Seq<Tok>, pos: int, room: nat, more: nat)
    requires
        room <= more,
    ensures
        keeps(grammar::flow_pair_value(ts, pos, room), grammar::flow_pair_value(ts, pos, more)),
    decreases room, 3int, 0int,
{
    lemma_node_unless(ts, pos + 1, room, more, grammar::flow_value_ends(ts, pos + 1));
}

proof fn lemma_flow_entry(ts: Seq<Tok>, pos: int, room: nat, more: nat)
    requires
        room <= more,
    ensures
        keeps(grammar::flow_entry(ts, pos, room), grammar::flow_entry(ts, pos, more)),
    decreases room, 3int, 1int,
{
    lemma_node(ts, pos, room, more);
    if room > 0 {
        let inner = (room - 1) as nat;
        let wider = (more - 1) as nat;
        lemma_flow_pair_value(ts, pos, inner, wider);
        if let Ok((_, at)) = grammar::node(ts, pos, room) {
            lemma_flow_pair_value(ts, at, inner, wider);
        }
    }
}

proof fn lemma_flow_entries(ts: Seq<Tok>, pos: int, room: nat, more: nat)
    requires
        room <= more,
    ensures
        keeps(grammar::flow_entries(ts, pos, room), grammar::flow_entries(ts, pos, more)),
    decreases room, 4int, grammar::left(ts, pos),
{
    lemma_flow_entry(ts, pos, room, more);
    if let Ok((_, at)) = grammar::flow_entry(ts, pos, room) {
        if grammar::kind_at(ts, at) == Some(Lexeme::FlowEntry) && 0 <= pos <= at {
            lemma_flow_entries(ts, at + 1, room, more);
        }
    }
}

proof fn lemma_flow_pair(ts: Seq<Tok>, pos: int, room: nat, more: nat)
    requires
        room <= more,
    ensures
        keeps(grammar::flow_pair(ts, pos, room), grammar::flow_pair(ts, pos, more)),
    decreases room, 3int, 1int,
{
    let empty = grammar::kind_at(ts, pos + 1) == Some(Lexeme::Value) || grammar::flow_value_ends(
        ts,
        pos + 1,
    );
    lemma_node(ts, pos, room, more);
    lemma_node_unless(ts, pos + 1, room, more, empty);
    if let Ok((_, middle)) = grammar::flow_key(ts, pos, room) {
        let none = grammar::flow_value_ends(ts, middle + 1);
        lemma_node_unless(ts, middle + 1, room, more, none);
    }
}

proof fn lemma_flow_pairs(ts: Seq<Tok>, pos: int, room: nat, more: nat)
    requires
        room <= more,
    ensures
        keeps(grammar::flow_pairs(ts, pos, room), grammar::flow_pairs(ts, pos, more)),
    decreases room, 4int, grammar::left(ts, pos),
{
    lemma_flow_pair(ts, pos, room, more);
    if let Ok((_, at)) = grammar::flow_pair(ts, pos, room) {
        if grammar::kind_at(ts, at) == Some(Lexeme::FlowEntry) && 0 <= pos <= at {
            lemma_flow_pairs(ts, at + 1, room, more);
        }
    }
}

proof fn lemma_documents(ts: Seq<Tok>, pos: int, room: nat, more: nat)
    requires
        room <= more,
    ensures
        keeps(grammar::documents(ts, pos, room), grammar::documents(ts, pos, more)),
    decreases grammar::left(ts, pos),
{
    match grammar::kind_at(ts, pos) {
        Some(Lexeme::DocumentEnd) => {
            lemma_documents(ts, pos + 1, room, more);
        },
        _ => {
            let explicit = grammar::kind_at(ts, pos) == Some(Lexeme::DocumentStart);
            let from = if explicit { pos + 1 } else { pos };
            lemma_node(ts, from, room, more);
            if let Ok((_, at)) = grammar::document(ts, pos, room) {
                if pos < at && grammar::kind_at(ts, pos) is Some {
                    lemma_documents(ts, at, room, more);
                }
            }
        },
    }
}

/// More room for nesting changes no events.
pub proof fn law_more_room_keeps_events(ts: Seq<Tok>, room: nat, more: nat)
    requires
        room <= more,
    ensures
        grammar::stream(ts, room) matches Ok(evs) ==> grammar::stream(ts, more) == Ok::<
            Seq<Ev>,
            Fault,
        >(evs),
{
    lemma_documents(ts, 1, room, more);
}

/// Raising the limits never turns a success into an error, and never changes the
/// events of a text.
pub proof fn law_higher_limits_keep_events(
    text: Seq<char>,
    options: ParseOptions,
    other: ParseOptions,
)
    requires
        allows_more(options.limits, other.limits),
    ensures
        parser::events(text, options) matches Ok(evs) ==> parser::events(text, other) == Ok::<
            Seq<Ev>,
            Fault,
        >(evs),
{
    lemma_tokens(text, options.limits, other.limits);
    if let Ok(ts) = model::tokens(text, options.limits) {
        law_more_room_keeps_events(
            ts,
            options.limits.max_depth as nat,
            other.limits.max_depth as nat,
        );
    }
}

} // verus!
