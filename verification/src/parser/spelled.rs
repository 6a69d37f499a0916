//! Nodes spelled in tokens: every way to spell a node is parsed as the events of the node.

use crate::event::{Ev, Happening};
use crate::meta::ScalarStyle;
use crate::parser::grammar;
use crate::parser::grammar::{Halt, Parsed, Properties};
use crate::roundtrip::parse;
use crate::scanner::token::{Lexeme, Tok};
use vstd::prelude::*;

verus! {

// ---------------------------------------------------------------------------
// Spellings
// ---------------------------------------------------------------------------

/// The properties of a node, and whether the tag comes first.
pub struct Props {
    pub anchor: Option<Seq<char>>,
    pub tag: Option<Seq<char>>,
    pub tag_first: bool,
}

/// A node as it is spelled. An entry of a mapping is a key and, where the flag is set, a `:`
/// and a value; an entry of a flow mapping may also have a `?`. An entry of a flow sequence
/// with a `:` is a mapping of one pair. A flow collection may end with a comma.
pub enum Part {
    Scalar(Props, Seq<char>, ScalarStyle),
    Alias(Seq<char>),
    Empty(Props),
    Block(Props, Seq<Part>),
    Indentless(Props, Seq<Part>),
    Mapping(Props, Seq<(Part, bool, Part)>),
    Flow(Props, Seq<(Part, bool, Part)>, bool),
    FlowMapping(Props, Seq<(bool, Part, bool, Part)>, bool),
}

/// No properties.
pub open spec fn plain() -> Props {
    Props { anchor: None, tag: None, tag_first: false }
}

/// Nothing at all.
pub open spec fn is_nothing(p: Part) -> bool {
    p matches Part::Empty(props) && props.anchor is None && props.tag is None
}

pub open spec fn is_single(p: Part) -> bool {
    p is Scalar || p is Alias || p is Empty
}

/// The spelling is one that stands where it does: an item of a block sequence is no sequence
/// without indentation, and has no properties where it is empty. `item` says that it is such
/// an item.
pub open spec fn is_part(p: Part, item: bool) -> bool
    decreases p,
{
    match p {
        Part::Scalar(..) => true,
        Part::Alias(_) => true,
        Part::Empty(_) => item ==> is_nothing(p),
        Part::Block(_, items) => forall|i: int|
            0 <= i < items.len() ==> is_part(#[trigger] items[i], true),
        Part::Indentless(_, items) => !item && items.len() > 0 && forall|i: int|
            0 <= i < items.len() ==> is_part(#[trigger] items[i], true),
        Part::Mapping(_, entries) => forall|i: int|
            0 <= i < entries.len() ==> is_part((#[trigger] entries[i]).0, false) && is_part(
                entries[i].2,
                false,
            ),
        Part::Flow(_, entries, comma) => {
            &&& comma ==> entries.len() > 0
            &&& forall|i: int|
                0 <= i < entries.len() ==> {
                    let entry = #[trigger] entries[i];
                    &&& is_part(entry.0, false)
                    &&& is_part(entry.2, false)
                    &&& !(entry.0 is Indentless)
                    &&& !(entry.2 is Indentless)
                    &&& if entry.1 {
                        is_single(entry.0)
                    } else {
                        !is_nothing(entry.0)
                    }
                }
        },
        Part::FlowMapping(_, entries, comma) => {
            &&& comma ==> entries.len() > 0
            &&& forall|i: int|
                0 <= i < entries.len() ==> {
                    let entry = #[trigger] entries[i];
                    &&& is_part(entry.1, false)
                    &&& is_part(entry.3, false)
                    &&& !(entry.1 is Indentless)
                    &&& !(entry.3 is Indentless)
                    &&& !entry.0 && !entry.2 ==> !is_nothing(entry.1)
                }
        },
    }
}

/// The tokens of properties.
pub open spec fn props_lexemes(props: Props) -> Seq<Lexeme> {
    let anchor = match props.anchor {
        Some(name) => seq![Lexeme::Anchor(name)],
        None => Seq::empty(),
    };
    let tag = match props.tag {
        Some(tag) => seq![Lexeme::Tag(tag)],
        None => Seq::empty(),
    };
    if props.tag_first {
        tag + anchor
    } else {
        anchor + tag
    }
}

/// The tokens of a node.
pub open spec fn lexemes(p: Part) -> Seq<Lexeme>
    decreases p, 0int,
{
    match p {
        Part::Scalar(props, value, style) => props_lexemes(props) + seq![
            Lexeme::Scalar { value, style },
        ],
        Part::Alias(name) => seq![Lexeme::Alias(name)],
        Part::Empty(props) => props_lexemes(props),
        Part::Block(props, items) => props_lexemes(props) + (seq![Lexeme::BlockSequenceStart] + (
        items_lexemes(items, 0) + seq![Lexeme::BlockEnd])),
        Part::Indentless(props, items) => props_lexemes(props) + items_lexemes(items, 0),
        Part::Mapping(props, entries) => props_lexemes(props) + (seq![Lexeme::BlockMappingStart] + (
        entries_lexemes(entries, 0) + seq![Lexeme::BlockEnd])),
        Part::Flow(props, entries, comma) => props_lexemes(props) + (seq![
            Lexeme::FlowSequenceStart,
        ] + (flow_lexemes(entries, 0) + (last_comma(comma) + seq![Lexeme::FlowSequenceEnd]))),
        Part::FlowMapping(props, entries, comma) => props_lexemes(props) + (seq![
            Lexeme::FlowMappingStart,
        ] + (pairs_lexemes(entries, 0) + (last_comma(comma) + seq![Lexeme::FlowMappingEnd]))),
    }
}

pub open spec fn last_comma(comma: bool) -> Seq<Lexeme> {
    if comma {
        seq![Lexeme::FlowEntry]
    } else {
        Seq::empty()
    }
}

pub open spec fn items_lexemes(items: Seq<Part>, i: int) -> Seq<Lexeme>
    decreases items, items.len() - i,
{
    if 0 <= i < items.len() {
        seq![Lexeme::BlockEntry] + (lexemes(items[i]) + items_lexemes(items, i + 1))
    } else {
        Seq::empty()
    }
}

pub open spec fn entries_lexemes(entries: Seq<(Part, bool, Part)>, i: int) -> Seq<Lexeme>
    decreases entries, entries.len() - i,
{
    if 0 <= i < entries.len() {
        let value = if entries[i].1 {
            seq![Lexeme::Value] + lexemes(entries[i].2)
        } else {
            Seq::empty()
        };
        seq![Lexeme::Key] + (lexemes(entries[i].0) + (value + entries_lexemes(entries, i + 1)))
    } else {
        Seq::empty()
    }
}

pub open spec fn flow_lexemes(entries: Seq<(Part, bool, Part)>, i: int) -> Seq<Lexeme>
    decreases entries, entries.len() - i,
{
    if 0 <= i < entries.len() {
        let value = if entries[i].1 {
            seq![Lexeme::Value] + lexemes(entries[i].2)
        } else {
            Seq::empty()
        };
        lexemes(entries[i].0) + (value + if i + 1 < entries.len() {
            seq![Lexeme::FlowEntry] + flow_lexemes(entries, i + 1)
        } else {
            Seq::empty()
        })
    } else {
        Seq::empty()
    }
}

pub open spec fn pairs_lexemes(entries: Seq<(bool, Part, bool, Part)>, i: int) -> Seq<Lexeme>
    decreases entries, entries.len() - i,
{
    if 0 <= i < entries.len() {
        let mark = if entries[i].0 {
            seq![Lexeme::Key]
        } else {
            Seq::empty()
        };
        let value = if entries[i].2 {
            seq![Lexeme::Value] + lexemes(entries[i].3)
        } else {
            Seq::empty()
        };
        mark + (lexemes(entries[i].1) + (value + if i + 1 < entries.len() {
            seq![Lexeme::FlowEntry] + pairs_lexemes(entries, i + 1)
        } else {
            Seq::empty()
        }))
    } else {
        Seq::empty()
    }
}

/// An empty node with its properties.
pub open spec fn nothing(props: Props) -> Happening {
    Happening::Scalar {
        value: Seq::empty(),
        style: ScalarStyle::Plain,
        anchor: props.anchor,
        tag: props.tag,
    }
}

pub open spec fn sequence(props: Props, inner: Seq<Happening>) -> Seq<Happening> {
    seq![Happening::SequenceStart { anchor: props.anchor, tag: props.tag }] + (inner + seq![
        Happening::SequenceEnd,
    ])
}

pub open spec fn mapping(props: Props, inner: Seq<Happening>) -> Seq<Happening> {
    seq![Happening::MappingStart { anchor: props.anchor, tag: props.tag }] + (inner + seq![
        Happening::MappingEnd,
    ])
}

/// The events of a node.
pub open spec fn happenings(p: Part) -> Seq<Happening>
    decreases p, 0int,
{
    match p {
        Part::Scalar(props, value, style) => seq![
            Happening::Scalar { value, style, anchor: props.anchor, tag: props.tag },
        ],
        Part::Alias(name) => seq![Happening::Alias(name)],
        Part::Empty(props) => seq![nothing(props)],
        Part::Block(props, items) => sequence(props, items_happenings(items, 0)),
        Part::Indentless(props, items) => sequence(props, items_happenings(items, 0)),
        Part::Mapping(props, entries) => mapping(props, entries_happenings(entries, 0)),
        Part::Flow(props, entries, _) => sequence(props, flow_happenings(entries, 0)),
        Part::FlowMapping(props, entries, _) => mapping(props, pairs_happenings(entries, 0)),
    }
}

pub open spec fn items_happenings(items: Seq<Part>, i: int) -> Seq<Happening>
    decreases items, items.len() - i,
{
    if 0 <= i < items.len() {
        happenings(items[i]) + items_happenings(items, i + 1)
    } else {
        Seq::empty()
    }
}

pub open spec fn entries_happenings(entries: Seq<(Part, bool, Part)>, i: int) -> Seq<Happening>
    decreases entries, entries.len() - i,
{
    if 0 <= i < entries.len() {
        happenings(entries[i].0) + (if entries[i].1 {
            happenings(entries[i].2)
        } else {
            seq![nothing(plain())]
        }) + entries_happenings(entries, i + 1)
    } else {
        Seq::empty()
    }
}

pub open spec fn flow_happenings(entries: Seq<(Part, bool, Part)>, i: int) -> Seq<Happening>
    decreases entries, entries.len() - i,
{
    if 0 <= i < entries.len() {
        (if entries[i].1 {
            mapping(plain(), happenings(entries[i].0) + happenings(entries[i].2))
        } else {
            happenings(entries[i].0)
        }) + flow_happenings(entries, i + 1)
    } else {
        Seq::empty()
    }
}

pub open spec fn pairs_happenings(entries: Seq<(bool, Part, bool, Part)>, i: int) -> Seq<Happening>
    decreases entries, entries.len() - i,
{
    if 0 <= i < entries.len() {
        happenings(entries[i].1) + (if entries[i].2 {
            happenings(entries[i].3)
        } else {
            seq![nothing(plain())]
        }) + pairs_happenings(entries, i + 1)
    } else {
        Seq::empty()
    }
}

/// The collections of the node nest at most `room` levels deep.
pub open spec fn fits(p: Part, room: nat) -> bool
    decreases p,
{
    match p {
        Part::Block(_, items) => room > 0 && forall|i: int|
            0 <= i < items.len() ==> fits(#[trigger] items[i], (room - 1) as nat),
        Part::Indentless(_, items) => room > 0 && forall|i: int|
            0 <= i < items.len() ==> fits(#[trigger] items[i], (room - 1) as nat),
        Part::Mapping(_, entries) => room > 0 && forall|i: int|
            0 <= i < entries.len() ==> fits((#[trigger] entries[i]).0, (room - 1) as nat) && fits(
                entries[i].2,
                (room - 1) as nat,
            ),
        Part::Flow(_, entries, _) => room > 0 && forall|i: int|
            0 <= i < entries.len() ==> {
                let entry = #[trigger] entries[i];
                if entry.1 {
                    room > 1 && fits(entry.2, (room - 2) as nat)
                } else {
                    fits(entry.0, (room - 1) as nat)
                }
            },
        Part::FlowMapping(_, entries, _) => room > 0 && forall|i: int|
            0 <= i < entries.len() ==> fits((#[trigger] entries[i]).1, (room - 1) as nat) && fits(
                entries[i].3,
                (room - 1) as nat,
            ),
        _ => true,
    }
}

// ---------------------------------------------------------------------------
// Single steps
// ---------------------------------------------------------------------------

/// A token that no node begins with.
pub open spec fn stops(kind: Option<Lexeme>) -> bool {
    match kind {
        None => true,
        Some(k) => k is Key || k is Value || k is BlockEnd || k is FlowEntry || k is FlowSequenceEnd
            || k is FlowMappingEnd || k is StreamEnd || k is DocumentStart || k is DocumentEnd,
    }
}

spec fn is_property(kind: Option<Lexeme>) -> bool {
    match kind {
        Some(Lexeme::Anchor(_)) => true,
        Some(Lexeme::Tag(_)) => true,
        _ => false,
    }
}

spec fn read(props: Props) -> Properties {
    Properties { anchor: props.anchor, tag: props.tag }
}

/// Properties are read in either order.
proof fn lemma_props(ts: Seq<Tok>, pos: int, props: Props)
    requires
        parse::tokens_at(ts, pos, props_lexemes(props)),
        !is_property(grammar::kind_at(ts, pos + props_lexemes(props).len())),
    ensures
        grammar::properties(ts, pos, grammar::bare()) == Ok::<(Properties, int), Halt>(
            (read(props), pos + props_lexemes(props).len()),
        ),
        grammar::past_properties(ts, pos) == pos + props_lexemes(props).len(),
{
    reveal_with_fuel(grammar::properties, 3);
    reveal_with_fuel(grammar::past_properties, 3);
    let ks = props_lexemes(props);
    if ks.len() > 0 {
        assert(ts[pos + 0].kind == ks[0]);
    }
    if ks.len() > 1 {
        assert(ts[pos + 1].kind == ks[1]);
    }
}

/// The first token of a node: nothing that stops one.
proof fn lemma_first(ts: Seq<Tok>, pos: int, p: Part, item: bool)
    requires
        parse::tokens_at(ts, pos, lexemes(p)),
        is_part(p, item),
        !is_nothing(p),
    ensures
        lexemes(p).len() > 0,
        !stops(grammar::kind_at(ts, pos)),
        item ==> grammar::kind_at(ts, pos) != Some(Lexeme::BlockEntry),
        !(p is Indentless) ==> grammar::kind_at(ts, pos) != Some(Lexeme::BlockEntry),
{
    let ks = lexemes(p);
    match p {
        Part::Indentless(props, items) => {
            assert(items_lexemes(items, 0).len() > 0);
            assert(items_lexemes(items, 0)[0] == Lexeme::BlockEntry);
        },
        _ => {},
    }
    assert(ts[pos + 0].kind == ks[0]);
}

/// A parse of the events `hs` that goes on to `at`.
proof fn lemma_joins(open: Seq<Ev>, rest: Parsed, hs: Seq<Happening>, at: int)
    requires
        parse::gives(rest, hs, at),
    ensures
        parse::gives(grammar::joined(open, rest), parse::kinds(open) + hs, at),
{
    let more = rest->Ok_0.0;
    assert(parse::kinds(open + more) == parse::kinds(open) + parse::kinds(more));
}

// ---------------------------------------------------------------------------
// Nodes
// ---------------------------------------------------------------------------

/// A spelled node is parsed as its events.
proof fn lemma_part(ts: Seq<Tok>, pos: int, room: nat, p: Part, item: bool)
    requires
        parse::tokens_at(ts, pos, lexemes(p)),
        is_part(p, item),
        fits(p, room),
        ({
            let next = grammar::kind_at(ts, pos + lexemes(p).len());
            stops(next) || item && next == Some(Lexeme::BlockEntry) && !is_nothing(p)
        }),
    ensures
        parse::gives(grammar::node(ts, pos, room), happenings(p), pos + lexemes(p).len()),
    decreases p, 1int,
{
    match p {
        Part::Alias(name) => {
            assert(ts[pos + 0].kind == lexemes(p)[0]);
            let evs = grammar::ev(ts, Happening::Alias(name), pos);
            assert(parse::kinds(evs) == happenings(p));
        },
        Part::Scalar(props, value, style) => {
            let rest = seq![Lexeme::Scalar { value, style }];
            parse::lemma_tokens_at(ts, pos, props_lexemes(props), rest);
            let at = pos + props_lexemes(props).len();
            assert(ts[at + 0].kind == rest[0]);
            lemma_props(ts, pos, props);
            let evs = grammar::node(ts, pos, room)->Ok_0.0;
            assert(parse::kinds(evs) == happenings(p));
        },
        Part::Empty(props) => {
            lemma_props(ts, pos, props);
            let evs = grammar::node(ts, pos, room)->Ok_0.0;
            assert(parse::kinds(evs) == happenings(p));
        },
        _ => {
            lemma_collection(ts, pos, room, p, item);
        },
    }
}

/// A spelled collection.
proof fn lemma_collection(ts: Seq<Tok>, pos: int, room: nat, p: Part, item: bool)
    requires
        parse::tokens_at(ts, pos, lexemes(p)),
        is_part(p, item),
        !is_single(p),
        fits(p, room),
        p is Indentless ==> stops(grammar::kind_at(ts, pos + lexemes(p).len())),
    ensures
        parse::gives(grammar::node(ts, pos, room), happenings(p), pos + lexemes(p).len()),
    decreases p, 0int,
{
    let inner = (room - 1) as nat;
    let end = pos + lexemes(p).len();
    match p {
        Part::Block(props, items) => {
            let at = pos + props_lexemes(props).len();
            let body = items_lexemes(items, 0) + seq![Lexeme::BlockEnd];
            lemma_open(ts, pos, props, Lexeme::BlockSequenceStart, body);
            lemma_items(ts, at + 1, inner, items, 0);
            let open = grammar::ev(
                ts,
                Happening::SequenceStart { anchor: props.anchor, tag: props.tag },
                at,
            );
            let hs = items_happenings(items, 0) + seq![Happening::SequenceEnd];
            lemma_joins(open, grammar::block_entries(ts, at + 1, inner), hs, end);
            assert(parse::kinds(open) + hs == happenings(p));
        },
        Part::Indentless(props, items) => {
            let at = pos + props_lexemes(props).len();
            parse::lemma_tokens_at(ts, pos, props_lexemes(props), items_lexemes(items, 0));
            assert(items_lexemes(items, 0)[0] == Lexeme::BlockEntry);
            assert(ts[at + 0].kind == items_lexemes(items, 0)[0]);
            lemma_props(ts, pos, props);
            lemma_indentless(ts, at, inner, items, 0);
            let open = grammar::ev(
                ts,
                Happening::SequenceStart { anchor: props.anchor, tag: props.tag },
                at,
            );
            let hs = items_happenings(items, 0) + seq![Happening::SequenceEnd];
            lemma_joins(open, grammar::indentless_entries(ts, at, inner), hs, end);
            assert(parse::kinds(open) + hs == happenings(p));
        },
        Part::Mapping(props, entries) => {
            let at = pos + props_lexemes(props).len();
            let body = entries_lexemes(entries, 0) + seq![Lexeme::BlockEnd];
            lemma_open(ts, pos, props, Lexeme::BlockMappingStart, body);
            lemma_entries(ts, at + 1, inner, entries, 0);
            let open = grammar::ev(
                ts,
                Happening::MappingStart { anchor: props.anchor, tag: props.tag },
                at,
            );
            let hs = entries_happenings(entries, 0) + seq![Happening::MappingEnd];
            lemma_joins(open, grammar::block_pairs(ts, at + 1, inner), hs, end);
            assert(parse::kinds(open) + hs == happenings(p));
        },
        Part::Flow(props, entries, comma) => {
            let at = pos + props_lexemes(props).len();
            let body = flow_lexemes(entries, 0) + (last_comma(comma) + seq![
                Lexeme::FlowSequenceEnd,
            ]);
            lemma_open(ts, pos, props, Lexeme::FlowSequenceStart, body);
            lemma_flow(ts, at + 1, inner, entries, 0, comma);
            let open = grammar::ev(
                ts,
                Happening::SequenceStart { anchor: props.anchor, tag: props.tag },
                at,
            );
            let hs = flow_happenings(entries, 0) + seq![Happening::SequenceEnd];
            lemma_joins(open, grammar::flow_entries(ts, at + 1, inner), hs, end);
            assert(parse::kinds(open) + hs == happenings(p));
        },
        Part::FlowMapping(props, entries, comma) => {
            let at = pos + props_lexemes(props).len();
            let body = pairs_lexemes(entries, 0) + (last_comma(comma) + seq![
                Lexeme::FlowMappingEnd,
            ]);
            lemma_open(ts, pos, props, Lexeme::FlowMappingStart, body);
            lemma_pairs(ts, at + 1, inner, entries, 0, comma);
            let open = grammar::ev(
                ts,
                Happening::MappingStart { anchor: props.anchor, tag: props.tag },
                at,
            );
            let hs = pairs_happenings(entries, 0) + seq![Happening::MappingEnd];
            lemma_joins(open, grammar::flow_pairs(ts, at + 1, inner), hs, end);
            assert(parse::kinds(open) + hs == happenings(p));
        },
        _ => {},
    }
}

/// The start of a collection behind its properties.
proof fn lemma_open(ts: Seq<Tok>, pos: int, props: Props, start: Lexeme, body: Seq<Lexeme>)
    requires
        parse::tokens_at(ts, pos, props_lexemes(props) + (seq![start] + body)),
        !is_property(Some(start)),
    ensures
        ({
            let at = pos + props_lexemes(props).len();
            &&& grammar::kind_at(ts, at) == Some(start)
            &&& parse::tokens_at(ts, at + 1, body)
            &&& grammar::properties(ts, pos, grammar::bare()) == Ok::<(Properties, int), Halt>(
                (read(props), at),
            )
            &&& grammar::past_properties(ts, pos) == at
        }),
{
    let at = pos + props_lexemes(props).len();
    parse::lemma_tokens_at(ts, pos, props_lexemes(props), seq![start] + body);
    parse::lemma_tokens_at(ts, at, seq![start], body);
    assert(ts[at + 0].kind == seq![start][0]);
    lemma_props(ts, pos, props);
}

/// A node that may be nothing, where `empty` tells by the token at `pos` whether it is.
proof fn lemma_unless(ts: Seq<Tok>, pos: int, room: nat, p: Part, item: bool, empty: bool)
    requires
        parse::tokens_at(ts, pos, lexemes(p)),
        is_part(p, item),
        fits(p, room),
        ({
            let next = grammar::kind_at(ts, pos + lexemes(p).len());
            stops(next) || item && next == Some(Lexeme::BlockEntry)
        }),
        is_nothing(p) ==> empty || stops(grammar::kind_at(ts, pos)),
        !is_nothing(p) ==> !empty,
    ensures
        parse::gives(
            grammar::node_unless(ts, pos, room, empty),
            happenings(p),
            pos + lexemes(p).len(),
        ),
    decreases p, 2int,
{
    if is_nothing(p) && empty {
        let evs = grammar::empty_node(ts, pos, grammar::bare());
        assert(lexemes(p).len() == 0);
        assert(parse::kinds(evs) == happenings(p));
    } else {
        lemma_part(ts, pos, room, p, item);
    }
}

/// The items of a block sequence from item `i` on.
proof fn lemma_items(ts: Seq<Tok>, pos: int, room: nat, items: Seq<Part>, i: int)
    requires
        0 <= i <= items.len(),
        forall|j: int| 0 <= j < items.len() ==> is_part(#[trigger] items[j], true),
        forall|j: int| 0 <= j < items.len() ==> fits(#[trigger] items[j], room),
        parse::tokens_at(ts, pos, items_lexemes(items, i) + seq![Lexeme::BlockEnd]),
    ensures
        parse::gives(
            grammar::block_entries(ts, pos, room),
            items_happenings(items, i) + seq![Happening::SequenceEnd],
            pos + items_lexemes(items, i).len() + 1,
        ),
    decreases items, items.len() - i,
{
    let end = seq![Lexeme::BlockEnd];
    let ks = items_lexemes(items, i) + end;
    assert(ts[pos + 0].kind == ks[0]);
    if i == items.len() {
        let evs = grammar::ev(ts, Happening::SequenceEnd, pos);
        assert(parse::kinds(evs) == items_happenings(items, i) + seq![Happening::SequenceEnd]);
    } else {
        let p = items[i];
        assert(is_part(p, true) && fits(p, room));
        let tail = items_lexemes(items, i + 1) + end;
        assert(ks == seq![Lexeme::BlockEntry] + (lexemes(p) + tail));
        parse::lemma_tokens_at(ts, pos, seq![Lexeme::BlockEntry], lexemes(p) + tail);
        parse::lemma_tokens_at(ts, pos + 1, lexemes(p), tail);
        let at = pos + 1 + lexemes(p).len();
        assert(tail[0] == Lexeme::BlockEntry || tail[0] == Lexeme::BlockEnd);
        assert(ts[at + 0].kind == tail[0]);
        let next = grammar::kind_at(ts, pos + 1);
        let empty = next == Some(Lexeme::BlockEntry) || next == Some(Lexeme::BlockEnd);
        if !is_nothing(p) {
            lemma_first(ts, pos + 1, p, true);
        }
        lemma_unless(ts, pos + 1, room, p, true, empty);
        lemma_items(ts, at, room, items, i + 1);
        let evs = grammar::node_unless(ts, pos + 1, room, empty)->Ok_0.0;
        let hs = items_happenings(items, i + 1) + seq![Happening::SequenceEnd];
        lemma_joins(evs, grammar::block_entries(ts, at, room), hs, at + tail.len());
        assert(parse::kinds(evs) + hs == items_happenings(items, i) + seq![
            Happening::SequenceEnd,
        ]);
    }
}

/// The items of a sequence without indentation from item `i` on.
proof fn lemma_indentless(ts: Seq<Tok>, pos: int, room: nat, items: Seq<Part>, i: int)
    requires
        0 <= i <= items.len(),
        forall|j: int| 0 <= j < items.len() ==> is_part(#[trigger] items[j], true),
        forall|j: int| 0 <= j < items.len() ==> fits(#[trigger] items[j], room),
        parse::tokens_at(ts, pos, items_lexemes(items, i)),
        stops(grammar::kind_at(ts, pos + items_lexemes(items, i).len())),
    ensures
        parse::gives(
            grammar::indentless_entries(ts, pos, room),
            items_happenings(items, i) + seq![Happening::SequenceEnd],
            pos + items_lexemes(items, i).len(),
        ),
    decreases items, items.len() - i,
{
    if i == items.len() {
        let evs = grammar::ev(ts, Happening::SequenceEnd, pos);
        assert(parse::kinds(evs) == items_happenings(items, i) + seq![Happening::SequenceEnd]);
    } else {
        let p = items[i];
        assert(is_part(p, true) && fits(p, room));
        let tail = items_lexemes(items, i + 1);
        let ks = items_lexemes(items, i);
        assert(ts[pos + 0].kind == ks[0]);
        assert(ks == seq![Lexeme::BlockEntry] + (lexemes(p) + tail));
        parse::lemma_tokens_at(ts, pos, seq![Lexeme::BlockEntry], lexemes(p) + tail);
        parse::lemma_tokens_at(ts, pos + 1, lexemes(p), tail);
        let at = pos + 1 + lexemes(p).len();
        if i + 1 < items.len() {
            assert(tail[0] == Lexeme::BlockEntry);
            assert(ts[at + 0].kind == tail[0]);
        }
        let next = grammar::kind_at(ts, pos + 1);
        let empty = next == Some(Lexeme::BlockEntry) || next == Some(Lexeme::Key) || next == Some(
            Lexeme::Value,
        ) || next == Some(Lexeme::BlockEnd);
        if !is_nothing(p) {
            lemma_first(ts, pos + 1, p, true);
        }
        lemma_unless(ts, pos + 1, room, p, true, empty);
        lemma_indentless(ts, at, room, items, i + 1);
        let evs = grammar::node_unless(ts, pos + 1, room, empty)->Ok_0.0;
        let hs = items_happenings(items, i + 1) + seq![Happening::SequenceEnd];
        lemma_joins(evs, grammar::indentless_entries(ts, at, room), hs, at + tail.len());
        assert(parse::kinds(evs) + hs == items_happenings(items, i) + seq![
            Happening::SequenceEnd,
        ]);
    }
}

/// The value of an entry, where it has one.
pub open spec fn value_lexemes(colon: bool, value: Part) -> Seq<Lexeme> {
    if colon {
        seq![Lexeme::Value] + lexemes(value)
    } else {
        Seq::empty()
    }
}

pub open spec fn value_happenings(colon: bool, value: Part) -> Seq<Happening> {
    if colon {
        happenings(value)
    } else {
        seq![nothing(plain())]
    }
}

/// The value of an entry of a block mapping.
proof fn lemma_value(ts: Seq<Tok>, pos: int, room: nat, colon: bool, value: Part)
    requires
        is_part(value, false),
        fits(value, room),
        parse::tokens_at(ts, pos, value_lexemes(colon, value)),
        ({
            let next = grammar::kind_at(ts, pos + value_lexemes(colon, value).len());
            next == Some(Lexeme::Key) || next == Some(Lexeme::BlockEnd)
        }),
    ensures
        parse::gives(
            grammar::block_value(ts, pos, room),
            value_happenings(colon, value),
            pos + value_lexemes(colon, value).len(),
        ),
    decreases value, 3int,
{
    if colon {
        parse::lemma_tokens_at(ts, pos, seq![Lexeme::Value], lexemes(value));
        assert(ts[pos + 0].kind == seq![Lexeme::Value][0]);
        let next = grammar::kind_at(ts, pos + 1);
        if !is_nothing(value) {
            lemma_first(ts, pos + 1, value, false);
        } else {
            assert(lexemes(value).len() == 0);
        }
        let empty = next == Some(Lexeme::Key) || next == Some(Lexeme::BlockEnd);
        lemma_unless(ts, pos + 1, room, value, false, empty);
    } else {
        let evs = grammar::empty_node(ts, pos, grammar::bare());
        assert(parse::kinds(evs) == value_happenings(colon, value));
    }
}

/// The entries of a block mapping from entry `i` on.
#[verifier::rlimit(100)]
#[verifier::spinoff_prover]
proof fn lemma_entries(
    ts: Seq<Tok>,
    pos: int,
    room: nat,
    entries: Seq<(Part, bool, Part)>,
    i: int,
)
    requires
        0 <= i <= entries.len(),
        forall|j: int|
            0 <= j < entries.len() ==> is_part((#[trigger] entries[j]).0, false) && is_part(
                entries[j].2,
                false,
            ),
        forall|j: int|
            0 <= j < entries.len() ==> fits((#[trigger] entries[j]).0, room) && fits(
                entries[j].2,
                room,
            ),
        parse::tokens_at(ts, pos, entries_lexemes(entries, i) + seq![Lexeme::BlockEnd]),
    ensures
        parse::gives(
            grammar::block_pairs(ts, pos, room),
            entries_happenings(entries, i) + seq![Happening::MappingEnd],
            pos + entries_lexemes(entries, i).len() + 1,
        ),
    decreases entries, entries.len() - i,
{
    let end = seq![Lexeme::BlockEnd];
    let ks = entries_lexemes(entries, i) + end;
    assert(ts[pos + 0].kind == ks[0]);
    if i == entries.len() {
        let evs = grammar::ev(ts, Happening::MappingEnd, pos);
        assert(parse::kinds(evs) == entries_happenings(entries, i) + seq![Happening::MappingEnd]);
    } else {
        let (key, colon, value) = entries[i];
        let vs = value_lexemes(colon, value);
        let tail = entries_lexemes(entries, i + 1) + end;
        assert(ks == seq![Lexeme::Key] + (lexemes(key) + (vs + tail)));
        parse::lemma_tokens_at(ts, pos, seq![Lexeme::Key], lexemes(key) + (vs + tail));
        parse::lemma_tokens_at(ts, pos + 1, lexemes(key), vs + tail);
        let middle = pos + 1 + lexemes(key).len();
        parse::lemma_tokens_at(ts, middle, vs, tail);
        let at = middle + vs.len();
        assert(tail[0] == Lexeme::Key || tail[0] == Lexeme::BlockEnd);
        assert(ts[at + 0].kind == tail[0]);
        if colon {
            assert(ts[middle + 0].kind == vs[0]);
        }
        let next = grammar::kind_at(ts, pos + 1);
        let empty = next == Some(Lexeme::Value) || next == Some(Lexeme::Key) || next == Some(
            Lexeme::BlockEnd,
        );
        if !is_nothing(key) {
            lemma_first(ts, pos + 1, key, false);
        } else {
            assert(lexemes(key).len() == 0);
        }
        lemma_unless(ts, pos + 1, room, key, false, empty);
        lemma_value(ts, middle, room, colon, value);
        lemma_entries(ts, at, room, entries, i + 1);
        let k = grammar::node_unless(ts, pos + 1, room, empty)->Ok_0.0;
        let v = grammar::block_value(ts, middle, room)->Ok_0.0;
        let hs = entries_happenings(entries, i + 1) + seq![Happening::MappingEnd];
        assert(parse::kinds(k + v) == happenings(key) + value_happenings(colon, value));
        lemma_joins(k + v, grammar::block_pairs(ts, at, room), hs, at + tail.len());
        assert(parse::kinds(k + v) + hs == entries_happenings(entries, i) + seq![
            Happening::MappingEnd,
        ]);
    }
}

/// What ends an entry of a flow collection.
spec fn flow_next(kind: Option<Lexeme>) -> bool {
    kind == Some(Lexeme::FlowEntry) || kind == Some(Lexeme::FlowSequenceEnd) || kind == Some(
        Lexeme::FlowMappingEnd,
    )
}

/// One event opens no collection.
proof fn lemma_single_height(evs: Seq<Ev>)
    requires
        evs.len() == 1,
        grammar::step(evs[0].kind) == 0,
    ensures
        grammar::height(evs, 1) == 0,
{
    reveal_with_fuel(grammar::height, 2);
    reveal_with_fuel(grammar::level, 2);
}

/// The events of an entry of a flow sequence.
spec fn flow_entry_happenings(entry: (Part, bool, Part)) -> Seq<Happening> {
    if entry.1 {
        mapping(plain(), happenings(entry.0) + happenings(entry.2))
    } else {
        happenings(entry.0)
    }
}

/// The value of a pair in a flow sequence.
proof fn lemma_pair_value(ts: Seq<Tok>, pos: int, room: nat, value: Part)
    requires
        is_part(value, false),
        fits(value, room),
        parse::tokens_at(ts, pos, seq![Lexeme::Value] + lexemes(value)),
        flow_next(grammar::kind_at(ts, pos + 1 + lexemes(value).len())),
    ensures
        parse::gives(
            grammar::flow_pair_value(ts, pos, room),
            happenings(value) + seq![Happening::MappingEnd],
            pos + 1 + lexemes(value).len(),
        ),
    decreases value, 3int,
{
    parse::lemma_tokens_at(ts, pos, seq![Lexeme::Value], lexemes(value));
    let empty = grammar::flow_value_ends(ts, pos + 1);
    if !is_nothing(value) {
        lemma_first(ts, pos + 1, value, false);
    } else {
        assert(lexemes(value).len() == 0);
    }
    lemma_unless(ts, pos + 1, room, value, false, empty);
    let at = pos + 1 + lexemes(value).len();
    let evs = grammar::node_unless(ts, pos + 1, room, empty)->Ok_0.0;
    let close = grammar::ev(ts, Happening::MappingEnd, at);
    assert(parse::kinds(evs + close) == happenings(value) + seq![Happening::MappingEnd]);
}

/// An entry of a flow sequence.
proof fn lemma_flow_entry(ts: Seq<Tok>, pos: int, room: nat, entry: (Part, bool, Part))
    requires
        is_part(entry.0, false),
        is_part(entry.2, false),
        !(entry.0 is Indentless),
        if entry.1 {
            is_single(entry.0) && room > 0 && fits(entry.2, (room - 1) as nat)
        } else {
            !is_nothing(entry.0) && fits(entry.0, room)
        },
        parse::tokens_at(ts, pos, lexemes(entry.0) + value_lexemes(entry.1, entry.2)),
        flow_next(
            grammar::kind_at(
                ts,
                pos + lexemes(entry.0).len() + value_lexemes(entry.1, entry.2).len(),
            ),
        ),
    ensures
        parse::gives(
            grammar::flow_entry(ts, pos, room),
            flow_entry_happenings(entry),
            pos + lexemes(entry.0).len() + value_lexemes(entry.1, entry.2).len(),
        ),
    decreases entry, 4int,
{
    let (key, colon, value) = entry;
    let vs = value_lexemes(colon, value);
    parse::lemma_tokens_at(ts, pos, lexemes(key), vs);
    let at = pos + lexemes(key).len();
    let end = at + vs.len();
    if colon {
        assert(ts[at + 0].kind == vs[0]);
        let inner = (room - 1) as nat;
        lemma_pair_value(ts, at, inner, value);
        let open = grammar::ev(ts, Happening::MappingStart { anchor: None, tag: None }, pos);
        let rest = happenings(value) + seq![Happening::MappingEnd];
        let k = if is_nothing(key) {
            assert(lexemes(key).len() == 0);
            grammar::empty_node(ts, pos, grammar::bare())
        } else {
            lemma_first(ts, pos, key, false);
            assert(fits(key, room));
            lemma_part(ts, pos, room, key, false);
            grammar::node(ts, pos, room)->Ok_0.0
        };
        assert(parse::kinds(k) == happenings(key));
        assert(k.len() == parse::kinds(k).len());
        assert(parse::kinds(k)[0] == k[0].kind);
        lemma_single_height(k);
        lemma_joins(open + k, grammar::flow_pair_value(ts, at, inner), rest, end);
        assert(parse::kinds(open + k) + rest == flow_entry_happenings(entry));
    } else {
        lemma_first(ts, pos, key, false);
        lemma_part(ts, pos, room, key, false);
    }
}

/// What stands behind entry `i` of a flow sequence.
spec fn flow_tail(entries: Seq<(Part, bool, Part)>, i: int, comma: bool) -> Seq<Lexeme> {
    (if i + 1 < entries.len() {
        seq![Lexeme::FlowEntry] + flow_lexemes(entries, i + 1)
    } else {
        Seq::empty()
    }) + (last_comma(comma) + seq![Lexeme::FlowSequenceEnd])
}

/// The entries of a flow sequence from entry `i` on.
#[verifier::rlimit(100)]
#[verifier::spinoff_prover]
proof fn lemma_flow(
    ts: Seq<Tok>,
    pos: int,
    room: nat,
    entries: Seq<(Part, bool, Part)>,
    i: int,
    comma: bool,
)
    requires
        0 <= i <= entries.len(),
        i > 0 ==> i < entries.len(),
        comma ==> entries.len() > 0,
        forall|j: int|
            0 <= j < entries.len() ==> {
                let entry = #[trigger] entries[j];
                &&& is_part(entry.0, false)
                &&& is_part(entry.2, false)
                &&& !(entry.0 is Indentless)
                &&& !(entry.2 is Indentless)
                &&& if entry.1 {
                    is_single(entry.0) && room > 0 && fits(entry.2, (room - 1) as nat)
                } else {
                    !is_nothing(entry.0) && fits(entry.0, room)
                }
            },
        parse::tokens_at(
            ts,
            pos,
            flow_lexemes(entries, i) + (last_comma(comma) + seq![Lexeme::FlowSequenceEnd]),
        ),
    ensures
        parse::gives(
            grammar::flow_entries(ts, pos, room),
            flow_happenings(entries, i) + seq![Happening::SequenceEnd],
            pos + flow_lexemes(entries, i).len() + last_comma(comma).len() + 1,
        ),
    decreases entries, entries.len() - i,
{
    let end = last_comma(comma) + seq![Lexeme::FlowSequenceEnd];
    let ks = flow_lexemes(entries, i) + end;
    let close = seq![Happening::SequenceEnd];
    if i == entries.len() {
        assert(ts[pos + 0].kind == ks[0]);
        let evs = grammar::ev(ts, Happening::SequenceEnd, pos);
        assert(parse::kinds(evs) == flow_happenings(entries, i) + close);
    } else {
        let entry = entries[i];
        let here = lexemes(entry.0) + value_lexemes(entry.1, entry.2);
        let tail = flow_tail(entries, i, comma);
        assert(ks == here + tail);
        parse::lemma_tokens_at(ts, pos, here, tail);
        let at = pos + here.len();
        assert(tail[0] == Lexeme::FlowEntry || tail[0] == Lexeme::FlowSequenceEnd);
        assert(ts[at + 0].kind == tail[0]);
        lemma_flow_entry(ts, pos, room, entry);
        lemma_flow_first(ts, pos, entry);
        let evs = grammar::flow_entry(ts, pos, room)->Ok_0.0;
        if i + 1 < entries.len() {
            let next = flow_lexemes(entries, i + 1) + end;
            assert(tail == seq![Lexeme::FlowEntry] + next);
            parse::lemma_tokens_at(ts, at, seq![Lexeme::FlowEntry], next);
            lemma_flow(ts, at + 1, room, entries, i + 1, comma);
            let hs = flow_happenings(entries, i + 1) + close;
            lemma_joins(evs, grammar::flow_entries(ts, at + 1, room), hs, at + 1 + next.len());
            assert(parse::kinds(evs) + hs == flow_happenings(entries, i) + close);
        } else {
            assert(tail == end);
            assert(flow_happenings(entries, i + 1) == Seq::<Happening>::empty());
            assert(flow_happenings(entries, i) == flow_entry_happenings(entry));
            if comma {
                assert(ts[at + 1].kind == tail[1]);
                let last = grammar::ev(ts, Happening::SequenceEnd, at + 1);
                assert(parse::kinds(last) == close);
                lemma_joins(evs, grammar::flow_entries(ts, at + 1, room), close, at + 2);
            } else {
                let last = grammar::ev(ts, Happening::SequenceEnd, at);
                assert(parse::kinds(evs + last) == flow_happenings(entries, i) + close);
            }
        }
    }
}

/// An entry of a flow sequence does not begin with what ends one.
proof fn lemma_flow_first(ts: Seq<Tok>, pos: int, entry: (Part, bool, Part))
    requires
        is_part(entry.0, false),
        !entry.1 ==> !is_nothing(entry.0),
        parse::tokens_at(ts, pos, lexemes(entry.0) + value_lexemes(entry.1, entry.2)),
    ensures
        !flow_next(grammar::kind_at(ts, pos)),
{
    let vs = value_lexemes(entry.1, entry.2);
    parse::lemma_tokens_at(ts, pos, lexemes(entry.0), vs);
    if is_nothing(entry.0) {
        assert(lexemes(entry.0).len() == 0);
        assert(ts[pos + 0].kind == vs[0]);
    } else {
        lemma_first(ts, pos, entry.0, false);
    }
}

/// The tokens of an entry of a flow mapping.
spec fn pair_lexemes(entry: (bool, Part, bool, Part)) -> Seq<Lexeme> {
    (if entry.0 {
        seq![Lexeme::Key]
    } else {
        Seq::empty()
    }) + (lexemes(entry.1) + value_lexemes(entry.2, entry.3))
}

/// An entry of a flow mapping that can be read.
spec fn is_pair(entry: (bool, Part, bool, Part), room: nat) -> bool {
    &&& is_part(entry.1, false)
    &&& is_part(entry.3, false)
    &&& !(entry.1 is Indentless)
    &&& !(entry.3 is Indentless)
    &&& !entry.0 && !entry.2 ==> !is_nothing(entry.1)
    &&& fits(entry.1, room)
    &&& fits(entry.3, room)
}

/// An entry of a flow mapping.
proof fn lemma_pair(ts: Seq<Tok>, pos: int, room: nat, entry: (bool, Part, bool, Part))
    requires
        is_pair(entry, room),
        parse::tokens_at(ts, pos, pair_lexemes(entry)),
        flow_next(grammar::kind_at(ts, pos + pair_lexemes(entry).len())),
    ensures
        parse::gives(
            grammar::flow_pair(ts, pos, room),
            happenings(entry.1) + value_happenings(entry.2, entry.3),
            pos + pair_lexemes(entry).len(),
        ),
        !flow_next(grammar::kind_at(ts, pos)),
    decreases entry, 4int,
{
    let (mark, key, colon, value) = entry;
    let vs = value_lexemes(colon, value);
    let ms = if mark {
        seq![Lexeme::Key]
    } else {
        Seq::empty()
    };
    parse::lemma_tokens_at(ts, pos, ms, lexemes(key) + vs);
    let from = pos + ms.len();
    parse::lemma_tokens_at(ts, from, lexemes(key), vs);
    let middle = from + lexemes(key).len();
    if mark {
        assert(ts[pos + 0].kind == ms[0]);
    }
    if colon {
        assert(ts[middle + 0].kind == vs[0]);
    }
    if is_nothing(key) {
        assert(lexemes(key).len() == 0);
    } else {
        lemma_first(ts, from, key, false);
    }
    if mark {
        let empty = grammar::kind_at(ts, pos + 1) == Some(Lexeme::Value)
            || grammar::flow_value_ends(ts, pos + 1);
        lemma_unless(ts, from, room, key, false, empty);
    } else if !is_nothing(key) {
        lemma_part(ts, from, room, key, false);
    }
    let k = grammar::flow_key(ts, pos, room)->Ok_0.0;
    assert(parse::kinds(k) == happenings(key));
    lemma_flow_value(ts, middle, room, colon, value);
    lemma_joins(
        k,
        grammar::flow_value(ts, middle, room),
        value_happenings(colon, value),
        middle + vs.len(),
    );
}

/// The value of an entry of a flow mapping.
proof fn lemma_flow_value(ts: Seq<Tok>, pos: int, room: nat, colon: bool, value: Part)
    requires
        is_part(value, false),
        fits(value, room),
        parse::tokens_at(ts, pos, value_lexemes(colon, value)),
        flow_next(grammar::kind_at(ts, pos + value_lexemes(colon, value).len())),
    ensures
        parse::gives(
            grammar::flow_value(ts, pos, room),
            value_happenings(colon, value),
            pos + value_lexemes(colon, value).len(),
        ),
    decreases value, 3int,
{
    if colon {
        parse::lemma_tokens_at(ts, pos, seq![Lexeme::Value], lexemes(value));
        assert(ts[pos + 0].kind == seq![Lexeme::Value][0]);
        if !is_nothing(value) {
            lemma_first(ts, pos + 1, value, false);
        } else {
            assert(lexemes(value).len() == 0);
        }
        lemma_unless(ts, pos + 1, room, value, false, grammar::flow_value_ends(ts, pos + 1));
    } else {
        let evs = grammar::empty_node(ts, pos, grammar::bare());
        assert(parse::kinds(evs) == value_happenings(colon, value));
    }
}

/// What stands behind entry `i` of a flow mapping.
spec fn pairs_tail(entries: Seq<(bool, Part, bool, Part)>, i: int, comma: bool) -> Seq<Lexeme> {
    (if i + 1 < entries.len() {
        seq![Lexeme::FlowEntry] + pairs_lexemes(entries, i + 1)
    } else {
        Seq::empty()
    }) + (last_comma(comma) + seq![Lexeme::FlowMappingEnd])
}

/// The entries of a flow mapping from entry `i` on.
#[verifier::rlimit(100)]
#[verifier::spinoff_prover]
proof fn lemma_pairs(
    ts: Seq<Tok>,
    pos: int,
    room: nat,
    entries: Seq<(bool, Part, bool, Part)>,
    i: int,
    comma: bool,
)
    requires
        0 <= i <= entries.len(),
        i > 0 ==> i < entries.len(),
        comma ==> entries.len() > 0,
        forall|j: int| 0 <= j < entries.len() ==> is_pair(#[trigger] entries[j], room),
        parse::tokens_at(
            ts,
            pos,
            pairs_lexemes(entries, i) + (last_comma(comma) + seq![Lexeme::FlowMappingEnd]),
        ),
    ensures
        parse::gives(
            grammar::flow_pairs(ts, pos, room),
            pairs_happenings(entries, i) + seq![Happening::MappingEnd],
            pos + pairs_lexemes(entries, i).len() + last_comma(comma).len() + 1,
        ),
    decreases entries, entries.len() - i,
{
    let end = last_comma(comma) + seq![Lexeme::FlowMappingEnd];
    let ks = pairs_lexemes(entries, i) + end;
    let close = seq![Happening::MappingEnd];
    if i == entries.len() {
        assert(ts[pos + 0].kind == ks[0]);
        let evs = grammar::ev(ts, Happening::MappingEnd, pos);
        assert(parse::kinds(evs) == pairs_happenings(entries, i) + close);
    } else {
        let entry = entries[i];
        let here = pair_lexemes(entry);
        let tail = pairs_tail(entries, i, comma);
        assert(ks == here + tail);
        parse::lemma_tokens_at(ts, pos, here, tail);
        let at = pos + here.len();
        assert(tail[0] == Lexeme::FlowEntry || tail[0] == Lexeme::FlowMappingEnd);
        assert(ts[at + 0].kind == tail[0]);
        lemma_pair(ts, pos, room, entry);
        let evs = grammar::flow_pair(ts, pos, room)->Ok_0.0;
        let one = happenings(entry.1) + value_happenings(entry.2, entry.3);
        if i + 1 < entries.len() {
            let next = pairs_lexemes(entries, i + 1) + end;
            assert(tail == seq![Lexeme::FlowEntry] + next);
            parse::lemma_tokens_at(ts, at, seq![Lexeme::FlowEntry], next);
            lemma_pairs(ts, at + 1, room, entries, i + 1, comma);
            let hs = pairs_happenings(entries, i + 1) + close;
            lemma_joins(evs, grammar::flow_pairs(ts, at + 1, room), hs, at + 1 + next.len());
            assert(parse::kinds(evs) + hs == pairs_happenings(entries, i) + close);
        } else {
            assert(tail == end);
            assert(pairs_happenings(entries, i + 1) == Seq::<Happening>::empty());
            assert(pairs_happenings(entries, i) == one);
            if comma {
                assert(ts[at + 1].kind == tail[1]);
                let last = grammar::ev(ts, Happening::MappingEnd, at + 1);
                assert(parse::kinds(last) == close);
                lemma_joins(evs, grammar::flow_pairs(ts, at + 1, room), close, at + 2);
            } else {
                let last = grammar::ev(ts, Happening::MappingEnd, at);
                assert(parse::kinds(evs + last) == pairs_happenings(entries, i) + close);
            }
        }
    }
}

// ---------------------------------------------------------------------------
// Streams
// ---------------------------------------------------------------------------

/// A document: its root, behind a `---` or not, and a `...` behind it or not.
pub struct Paper {
    pub marked: bool,
    pub root: Part,
    pub ended: bool,
}

/// Documents whose roots fit. One that is not the first has a `---`, or a `...` before it,
/// and one without a `---` is not empty.
pub open spec fn are_papers(ds: Seq<Paper>, room: nat) -> bool {
    &&& forall|i: int|
        0 <= i < ds.len() ==> {
            let d = #[trigger] ds[i];
            &&& is_part(d.root, false)
            &&& !(d.root is Indentless)
            &&& fits(d.root, room)
            &&& !d.marked ==> !is_nothing(d.root)
        }
    &&& forall|i: int| 0 < i < ds.len() && !(#[trigger] ds[i]).marked ==> ds[i - 1].ended
}

pub open spec fn paper_lexemes(d: Paper) -> Seq<Lexeme> {
    (if d.marked {
        seq![Lexeme::DocumentStart]
    } else {
        Seq::empty()
    }) + (lexemes(d.root) + if d.ended {
        seq![Lexeme::DocumentEnd]
    } else {
        Seq::empty()
    })
}

pub open spec fn papers_lexemes(ds: Seq<Paper>, i: int) -> Seq<Lexeme>
    decreases ds.len() - i,
{
    if 0 <= i < ds.len() {
        paper_lexemes(ds[i]) + papers_lexemes(ds, i + 1)
    } else {
        Seq::empty()
    }
}

pub open spec fn papers_happenings(ds: Seq<Paper>, i: int) -> Seq<Happening>
    decreases ds.len() - i,
{
    if 0 <= i < ds.len() {
        seq![Happening::DocumentStart] + happenings(ds[i].root) + seq![Happening::DocumentEnd]
            + papers_happenings(ds, i + 1)
    } else {
        Seq::empty()
    }
}

/// What the documents from document `i` on begin with.
proof fn lemma_papers_first(ds: Seq<Paper>, i: int)
    requires
        0 <= i <= ds.len(),
    ensures
        ({
            let ks = papers_lexemes(ds, i) + seq![Lexeme::StreamEnd];
            &&& ks.len() > 0
            &&& i == ds.len() ==> ks[0] == Lexeme::StreamEnd
            &&& i < ds.len() && ds[i].marked ==> ks[0] == Lexeme::DocumentStart
        }),
{
}

/// One document.
proof fn lemma_paper(ts: Seq<Tok>, pos: int, room: nat, d: Paper)
    requires
        is_part(d.root, false),
        !(d.root is Indentless),
        fits(d.root, room),
        !d.marked ==> !is_nothing(d.root),
        parse::tokens_at(ts, pos, paper_lexemes(d)),
        ({
            let next = grammar::kind_at(ts, pos + paper_lexemes(d).len());
            !d.ended ==> next == Some(Lexeme::StreamEnd) || next == Some(Lexeme::DocumentStart)
        }),
    ensures
        parse::gives(
            grammar::document(ts, pos, room),
            seq![Happening::DocumentStart] + happenings(d.root) + seq![Happening::DocumentEnd],
            pos + paper_lexemes(d).len(),
        ),
        paper_lexemes(d).len() > 0,
        grammar::kind_at(ts, pos) is Some,
        grammar::kind_at(ts, pos) != Some(Lexeme::StreamEnd),
        grammar::kind_at(ts, pos) != Some(Lexeme::DocumentEnd),
{
    let start = if d.marked {
        seq![Lexeme::DocumentStart]
    } else {
        Seq::empty()
    };
    let close = if d.ended {
        seq![Lexeme::DocumentEnd]
    } else {
        Seq::empty()
    };
    let ks = lexemes(d.root);
    parse::lemma_tokens_at(ts, pos, start, ks + close);
    let from = pos + start.len();
    parse::lemma_tokens_at(ts, from, ks, close);
    let at = from + ks.len();
    if d.marked {
        assert(ts[pos + 0].kind == start[0]);
    }
    if d.ended {
        assert(ts[at + 0].kind == close[0]);
    }
    if is_nothing(d.root) {
        assert(ks.len() == 0);
        let evs = grammar::empty_node(ts, from, grammar::bare());
        assert(parse::kinds(evs) == happenings(d.root));
    } else {
        lemma_first(ts, from, d.root, false);
        lemma_part(ts, from, room, d.root, false);
    }
    let evs = grammar::root(ts, from, room)->Ok_0.0;
    let open = grammar::ev(ts, Happening::DocumentStart, pos);
    let last = grammar::ev(ts, Happening::DocumentEnd, at);
    assert(parse::kinds(open + evs + last) == seq![Happening::DocumentStart] + happenings(d.root)
        + seq![Happening::DocumentEnd]);
}

#[verifier::rlimit(100)]
#[verifier::spinoff_prover]
proof fn lemma_papers(ts: Seq<Tok>, pos: int, room: nat, ds: Seq<Paper>, i: int)
    requires
        are_papers(ds, room),
        0 <= i <= ds.len(),
        parse::tokens_at(ts, pos, papers_lexemes(ds, i) + seq![Lexeme::StreamEnd]),
    ensures
        parse::gives(
            grammar::documents(ts, pos, room),
            papers_happenings(ds, i) + seq![Happening::StreamEnd],
            pos + papers_lexemes(ds, i).len() + 1,
        ),
    decreases ds.len() - i,
{
    let end = seq![Lexeme::StreamEnd];
    let close = seq![Happening::StreamEnd];
    let ks = papers_lexemes(ds, i) + end;
    if i == ds.len() {
        assert(ts[pos + 0].kind == ks[0]);
        let evs = grammar::ev(ts, Happening::StreamEnd, pos);
        assert(parse::kinds(evs) == papers_happenings(ds, i) + close);
    } else {
        let d = ds[i];
        let tail = papers_lexemes(ds, i + 1) + end;
        assert(ks == paper_lexemes(d) + tail);
        parse::lemma_tokens_at(ts, pos, paper_lexemes(d), tail);
        let at = pos + paper_lexemes(d).len();
        lemma_papers_first(ds, i + 1);
        if i + 1 < ds.len() {
            assert(!ds[i + 1].marked ==> ds[i].ended);
        }
        assert(ts[at + 0].kind == tail[0]);
        lemma_paper(ts, pos, room, d);
        lemma_papers(ts, at, room, ds, i + 1);
        let evs = grammar::document(ts, pos, room)->Ok_0.0;
        let hs = papers_happenings(ds, i + 1) + close;
        lemma_joins(evs, grammar::documents(ts, at, room), hs, at + tail.len());
        assert(parse::kinds(evs) + hs == papers_happenings(ds, i) + close);
    }
}

/// Every way to spell documents in tokens is parsed as the events of the documents: block
/// and flow collections with every kind of entry, nodes that are left out, and properties in
/// either order.
pub proof fn law_spelled_documents_are_parsed(ts: Seq<Tok>, room: nat, ds: Seq<Paper>)
    requires
        are_papers(ds, room),
        parse::tokens_at(
            ts,
            0,
            seq![Lexeme::StreamStart] + (papers_lexemes(ds, 0) + seq![Lexeme::StreamEnd]),
        ),
    ensures
        grammar::stream(ts, room) matches Ok(evs) && parse::kinds(evs) == seq![
            Happening::StreamStart,
        ] + papers_happenings(ds, 0) + seq![Happening::StreamEnd],
{
    let body = papers_lexemes(ds, 0) + seq![Lexeme::StreamEnd];
    parse::lemma_tokens_at(ts, 0, seq![Lexeme::StreamStart], body);
    assert(ts[0int + 0].kind == seq![Lexeme::StreamStart][0]);
    lemma_papers(ts, 1, room, ds, 0);
    let open = grammar::ev(ts, Happening::StreamStart, 0);
    let hs = papers_happenings(ds, 0) + seq![Happening::StreamEnd];
    lemma_joins(open, grammar::documents(ts, 1, room), hs, 1int + body.len());
    assert(parse::kinds(open) + hs == seq![Happening::StreamStart] + papers_happenings(ds, 0)
        + seq![Happening::StreamEnd]);
}

/// A spelled node is parsed as its events wherever a token follows that ends it.
pub proof fn law_spelled_nodes_are_parsed(ts: Seq<Tok>, pos: int, room: nat, p: Part)
    requires
        is_part(p, false),
        fits(p, room),
        parse::tokens_at(ts, pos, lexemes(p)),
        stops(grammar::kind_at(ts, pos + lexemes(p).len())),
    ensures
        grammar::node(ts, pos, room) matches Ok((evs, at)) && at == pos + lexemes(p).len()
            && parse::kinds(evs) == happenings(p),
{
    lemma_part(ts, pos, room, p, false);
}

} // verus!
