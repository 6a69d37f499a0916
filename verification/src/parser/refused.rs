//! Tokens that make no document, and are refused.

use crate::error::ErrorKind;
use crate::parser::carried;
use crate::parser::grammar;
use crate::scanner::token::{Lexeme, Tok};
use vstd::prelude::*;

verus! {

/// A comma where an entry of a flow collection should begin is refused.
pub proof fn law_needless_commas_are_refused(ts: Seq<Tok>, pos: int, room: nat)
    requires
        carried::token_at(ts, pos) == Some(Lexeme::FlowEntry),
    ensures
        grammar::flow_entries(ts, pos, room) is Err,
        grammar::flow_pairs(ts, pos, room) is Err,
{
}

/// Behind an entry of a flow collection comes a comma or the end of the collection, and
/// nothing else.
pub proof fn law_flow_entries_are_separated(ts: Seq<Tok>, pos: int, room: nat)
    ensures
        grammar::flow_entries(ts, pos, room) is Ok && carried::token_at(ts, pos) != Some(
            Lexeme::FlowSequenceEnd,
        ) ==> (grammar::flow_entry(ts, pos, room) matches Ok((_, at)) && (carried::token_at(ts, at)
            == Some(Lexeme::FlowEntry) || carried::token_at(ts, at) == Some(
            Lexeme::FlowSequenceEnd,
        ))),
        grammar::flow_pairs(ts, pos, room) is Ok && carried::token_at(ts, pos) != Some(
            Lexeme::FlowMappingEnd,
        ) ==> (grammar::flow_pair(ts, pos, room) matches Ok((_, at)) && (carried::token_at(ts, at)
            == Some(Lexeme::FlowEntry) || carried::token_at(ts, at) == Some(
            Lexeme::FlowMappingEnd,
        ))),
{
}

/// A block sequence holds entries and nothing else, a block mapping keys and nothing else,
/// and a stream begins with its start.
pub proof fn law_block_collections_hold_their_entries(ts: Seq<Tok>, pos: int, room: nat)
    ensures
        grammar::block_entries(ts, pos, room) is Ok ==> carried::token_at(ts, pos) == Some(
            Lexeme::BlockEntry,
        ) || carried::token_at(ts, pos) == Some(Lexeme::BlockEnd),
        grammar::block_pairs(ts, pos, room) is Ok ==> carried::token_at(ts, pos) == Some(
            Lexeme::Key,
        ) || carried::token_at(ts, pos) == Some(Lexeme::BlockEnd),
        grammar::stream(ts, room) is Ok ==> carried::token_at(ts, 0) == Some(Lexeme::StreamStart),
{
}

/// A collection that has no room is refused as too deep, and a scalar or an alias never is.
pub proof fn law_depth_is_limited(ts: Seq<Tok>, pos: int)
    requires
        !carried::property_at(ts, pos),
    ensures
        ({
            let first = carried::token_at(ts, pos);
            &&& first == Some(Lexeme::BlockSequenceStart) || first == Some(
                Lexeme::BlockMappingStart,
            ) || first == Some(Lexeme::FlowSequenceStart) || first == Some(Lexeme::FlowMappingStart)
                || first == Some(Lexeme::BlockEntry) ==> (grammar::node(ts, pos, 0) matches Err(h)
                && h.fault.kind == ErrorKind::LimitExceeded)
            &&& first matches Some(Lexeme::Scalar { .. }) ==> grammar::node(ts, pos, 0) is Ok
            &&& first matches Some(Lexeme::Alias(_)) ==> grammar::node(ts, pos, 0) is Ok
        }),
{
}

} // verus!
