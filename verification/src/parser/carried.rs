//! The first event of a node: what it carries, and what it opens.

use crate::event::{Ev, Happening};
use crate::meta::ScalarStyle;
use crate::parser::grammar;
use crate::scanner::token::{Lexeme, Tok};
use vstd::prelude::*;

verus! {

/// The token at `pos`, if there is one.
pub open spec fn token_at(ts: Seq<Tok>, pos: int) -> Option<Lexeme> {
    if 0 <= pos < ts.len() {
        Some(ts[pos].kind)
    } else {
        None
    }
}

/// The name of the anchor that the token at `pos` is.
pub open spec fn anchor_at(ts: Seq<Tok>, pos: int) -> Option<Seq<char>> {
    match token_at(ts, pos) {
        Some(Lexeme::Anchor(name)) => Some(name),
        _ => None,
    }
}

/// The tag that the token at `pos` is.
pub open spec fn tag_at(ts: Seq<Tok>, pos: int) -> Option<Seq<char>> {
    match token_at(ts, pos) {
        Some(Lexeme::Tag(tag)) => Some(tag),
        _ => None,
    }
}

/// The token at `pos` is an anchor or a tag.
pub open spec fn property_at(ts: Seq<Tok>, pos: int) -> bool {
    anchor_at(ts, pos) is Some || tag_at(ts, pos) is Some
}

/// How many properties stand in front of a node: none, one or two, and two only if they
/// are of different kinds.
pub open spec fn has_properties(ts: Seq<Tok>, pos: int, n: int) -> bool {
    &&& 0 <= n <= 2
    &&& forall|i: int| pos <= i < pos + n ==> #[trigger] property_at(ts, i)
    &&& !property_at(ts, pos + n)
    &&& n == 2 ==> (anchor_at(ts, pos) is Some <==> tag_at(ts, pos + 1) is Some)
}

/// The anchor among the first `n` tokens at `pos`.
pub open spec fn anchor_in(ts: Seq<Tok>, pos: int, n: int) -> Option<Seq<char>> {
    if n >= 1 && anchor_at(ts, pos) is Some {
        anchor_at(ts, pos)
    } else if n >= 2 {
        anchor_at(ts, pos + 1)
    } else {
        None
    }
}

/// The tag among the first `n` tokens at `pos`.
pub open spec fn tag_in(ts: Seq<Tok>, pos: int, n: int) -> Option<Seq<char>> {
    if n >= 1 && tag_at(ts, pos) is Some {
        tag_at(ts, pos)
    } else if n >= 2 {
        tag_at(ts, pos + 1)
    } else {
        None
    }
}

/// The first event of a node whose content is the token at `at`, with the given
/// properties: a scalar is that scalar, an alias that alias, a collection its start, and
/// anything else an empty plain scalar.
pub open spec fn first_event(
    ts: Seq<Tok>,
    at: int,
    anchor: Option<Seq<char>>,
    tag: Option<Seq<char>>,
) -> Happening {
    match token_at(ts, at) {
        Some(Lexeme::Scalar { value, style }) => Happening::Scalar { value, style, anchor, tag },
        Some(Lexeme::Alias(name)) => Happening::Alias(name),
        Some(Lexeme::BlockSequenceStart) => Happening::SequenceStart { anchor, tag },
        Some(Lexeme::BlockEntry) => Happening::SequenceStart { anchor, tag },
        Some(Lexeme::FlowSequenceStart) => Happening::SequenceStart { anchor, tag },
        Some(Lexeme::BlockMappingStart) => Happening::MappingStart { anchor, tag },
        Some(Lexeme::FlowMappingStart) => Happening::MappingStart { anchor, tag },
        _ => Happening::Scalar {
            value: Seq::empty(),
            style: ScalarStyle::Plain,
            anchor,
            tag,
        },
    }
}

/// The properties in front of a node are read, in whatever order they come.
proof fn lemma_properties(ts: Seq<Tok>, pos: int, n: int)
    requires
        has_properties(ts, pos, n),
    ensures
        grammar::properties(ts, pos, grammar::bare()) matches Ok((props, at)) && at == pos + n
            && props.anchor == anchor_in(ts, pos, n) && props.tag == tag_in(ts, pos, n),
        grammar::past_properties(ts, pos) == pos + n,
{
    reveal_with_fuel(grammar::properties, 3);
    reveal_with_fuel(grammar::past_properties, 3);
    assert(n >= 1 ==> property_at(ts, pos));
    assert(n >= 2 ==> property_at(ts, pos + 1));
}

/// Properties that are read stand in front of the node, at most one of each kind.
proof fn lemma_only_properties(ts: Seq<Tok>, pos: int) -> (n: int)
    requires
        grammar::properties(ts, pos, grammar::bare()) is Ok,
    ensures
        has_properties(ts, pos, n),
{
    reveal_with_fuel(grammar::properties, 4);
    let n = if !property_at(ts, pos) {
        0int
    } else if !property_at(ts, pos + 1) {
        1
    } else {
        2
    };
    assert forall|i: int| pos <= i < pos + n implies #[trigger] property_at(ts, i) by {
        assert(i == pos || i == pos + 1);
    }
    n
}

/// A node that is parsed has at most one anchor and one tag in front of it, and its first
/// event carries exactly those: the anchor that is there or none, and the tag that is there
/// or none, for scalars as for collections and for nodes that are not there. An alias
/// carries nothing and has nothing in front of it. What follows the properties says which
/// event it is, and that token is where the event is.
pub proof fn law_nodes_carry_their_properties(ts: Seq<Tok>, pos: int, room: nat) -> (n: int)
    requires
        grammar::node(ts, pos, room) is Ok,
    ensures
        has_properties(ts, pos, n),
        grammar::node(ts, pos, room)->Ok_0.0.len() > 0,
        grammar::node(ts, pos, room)->Ok_0.0[0].kind == first_event(
            ts,
            pos + n,
            anchor_in(ts, pos, n),
            tag_in(ts, pos, n),
        ),
        0 <= pos && pos + n < ts.len() ==> grammar::node(ts, pos, room)->Ok_0.0[0].span == ts[pos
            + n].span,
        token_at(ts, pos + n) matches Some(Lexeme::Alias(_)) ==> n == 0,
{
    let n = lemma_only_properties(ts, pos);
    lemma_properties(ts, pos, n);
    let (props, at) = grammar::properties(ts, pos, grammar::bare())->Ok_0;
    assert(n >= 1 ==> property_at(ts, pos));
    if grammar::starts_collection(grammar::kind_at(ts, at)) {
        assert(room > 0);
        assert(grammar::node(ts, pos, room) == grammar::collection(
            ts,
            at,
            props,
            (room - 1) as nat,
        ));
        let evs = grammar::node(ts, pos, room)->Ok_0.0;
        lemma_collection_starts(ts, at, props, (room - 1) as nat);
    } else {
        assert(grammar::node(ts, pos, room) == grammar::leaf(ts, at, props));
    }
    n
}

proof fn lemma_collection_starts(
    ts: Seq<Tok>,
    at: int,
    props: grammar::Properties,
    room: nat,
)
    requires
        grammar::starts_collection(grammar::kind_at(ts, at)),
        grammar::collection(ts, at, props, room) is Ok,
    ensures
        grammar::collection(ts, at, props, room)->Ok_0.0.len() > 0,
        grammar::collection(ts, at, props, room)->Ok_0.0[0] == (Ev {
            kind: first_event(ts, at, props.anchor, props.tag),
            span: ts[at].span,
        }),
{
}

/// Two anchors or two tags in front of a node are refused, and so is a property in front of
/// an alias.
pub proof fn law_needless_properties_are_refused(ts: Seq<Tok>, pos: int, room: nat)
    ensures
        anchor_at(ts, pos) is Some && anchor_at(ts, pos + 1) is Some ==> grammar::node(
            ts,
            pos,
            room,
        ) is Err,
        tag_at(ts, pos) is Some && tag_at(ts, pos + 1) is Some ==> grammar::node(ts, pos, room)
            is Err,
        property_at(ts, pos) && property_at(ts, pos + 1) && property_at(ts, pos + 2)
            ==> grammar::node(ts, pos, room) is Err,
        property_at(ts, pos) && (token_at(ts, pos + 1) matches Some(Lexeme::Alias(_)))
            ==> grammar::node(ts, pos, room) is Err,
{
    if grammar::node(ts, pos, room) is Ok {
        let n = law_nodes_carry_their_properties(ts, pos, room);
        assert(n >= 1 ==> property_at(ts, pos));
        assert(n >= 2 ==> property_at(ts, pos + 1));
    }
}

} // verus!
