//! What nodes with anchors, aliases and merge keys mean, told by the tree that they make.

use crate::composer::model;
use crate::composer::model::{Context, Memory};
use crate::error::Fault;
use crate::event;
use crate::event::{Ev, Happening};
use crate::meta::ScalarStyle;
use crate::node;
use crate::node::Node;
use crate::options::{MergeKeys, ParseOptions, Schema};
use crate::roundtrip::compose;
use crate::scalar;
use vstd::prelude::*;

verus! {

// ---------------------------------------------------------------------------
// Trees
// ---------------------------------------------------------------------------

/// The properties of a node.
pub struct Props {
    pub anchor: Option<Seq<char>>,
    pub tag: Option<Seq<char>>,
}

/// A node as it was written.
pub enum Tree {
    Scalar(Props, Seq<char>, ScalarStyle),
    Alias(Seq<char>),
    Sequence(Props, Seq<Tree>),
    Mapping(Props, Seq<(Tree, Tree)>),
}

/// The events of a node.
pub open spec fn events(t: Tree) -> Seq<Happening>
    decreases t, 0int,
{
    match t {
        Tree::Scalar(props, value, style) => seq![
            Happening::Scalar { value, style, anchor: props.anchor, tag: props.tag },
        ],
        Tree::Alias(name) => seq![Happening::Alias(name)],
        Tree::Sequence(props, items) => seq![
            Happening::SequenceStart { anchor: props.anchor, tag: props.tag },
        ] + (items_events(items, 0) + seq![Happening::SequenceEnd]),
        Tree::Mapping(props, entries) => seq![
            Happening::MappingStart { anchor: props.anchor, tag: props.tag },
        ] + (entries_events(entries, 0) + seq![Happening::MappingEnd]),
    }
}

pub open spec fn items_events(items: Seq<Tree>, i: int) -> Seq<Happening>
    decreases items, items.len() - i,
{
    if 0 <= i < items.len() {
        events(items[i]) + items_events(items, i + 1)
    } else {
        Seq::empty()
    }
}

pub open spec fn entries_events(entries: Seq<(Tree, Tree)>, i: int) -> Seq<Happening>
    decreases entries, entries.len() - i,
{
    if 0 <= i < entries.len() {
        events(entries[i].0) + (events(entries[i].1) + entries_events(entries, i + 1))
    } else {
        Seq::empty()
    }
}

// ---------------------------------------------------------------------------
// Values
// ---------------------------------------------------------------------------

/// What is known between two nodes: the values of the anchors, and how many nodes aliases
/// have copied.
pub struct World {
    pub names: Map<Seq<char>, Node>,
    pub copied: nat,
}

/// How many nodes a value consists of.
pub open spec fn size(n: Node) -> nat
    decreases n, 0int,
{
    match n {
        Node::Sequence(items) => 1 + items_size(items, 0),
        Node::Mapping(entries) => 1 + entries_size(entries, 0),
        _ => 1,
    }
}

pub open spec fn items_size(items: Seq<Node>, i: int) -> nat
    decreases items, items.len() - i,
{
    if 0 <= i < items.len() {
        size(items[i]) + items_size(items, i + 1)
    } else {
        0
    }
}

pub open spec fn entries_size(entries: Seq<(Node, Node)>, i: int) -> nat
    decreases entries, entries.len() - i,
{
    if 0 <= i < entries.len() {
        size(entries[i].0) + size(entries[i].1) + entries_size(entries, i + 1)
    } else {
        0
    }
}

/// An anchor names the value of its node from then on, whatever it named before.
pub open spec fn named(w: World, props: Props, n: Node) -> World {
    match props.anchor {
        Some(name) => World { names: w.names.insert(name, n), ..w },
        None => w,
    }
}

/// The mapping has the key.
pub open spec fn has_key(entries: Seq<(Node, Node)>, key: Node) -> bool {
    exists|i: int| 0 <= i < entries.len() && #[trigger] entries[i].0 == key
}

/// The mapping with the key set: where it is, or behind the others.
pub open spec fn assigned(entries: Seq<(Node, Node)>, key: Node, value: Node) -> Seq<(Node, Node)> {
    if has_key(entries, key) {
        Seq::new(
            entries.len(),
            |i: int|
                if entries[i].0 == key {
                    (key, value)
                } else {
                    entries[i]
                },
        )
    } else {
        entries.push((key, value))
    }
}

/// The mapping with the entries of a source, from entry `i` on, that it has no key of.
pub open spec fn completed(
    entries: Seq<(Node, Node)>,
    source: Seq<(Node, Node)>,
    i: int,
) -> Seq<(Node, Node)>
    decreases source.len() - i,
{
    if 0 <= i < source.len() {
        completed(
            if has_key(entries, source[i].0) {
                entries
            } else {
                entries.push(source[i])
            },
            source,
            i + 1,
        )
    } else {
        entries
    }
}

/// The mapping completed from each source in turn.
pub open spec fn complete(
    entries: Seq<(Node, Node)>,
    sources: Seq<Seq<(Node, Node)>>,
    i: int,
) -> Seq<(Node, Node)>
    decreases sources.len() - i,
{
    if 0 <= i < sources.len() {
        complete(completed(entries, sources[i], 0), sources, i + 1)
    } else {
        entries
    }
}

/// Merge keys have their meaning where they are asked for, or where the schema has them.
pub open spec fn merges(options: ParseOptions) -> bool {
    match options.merge_keys {
        MergeKeys::On => true,
        MergeKeys::Off => false,
        MergeKeys::Auto => options.schema == Schema::Yaml1_1,
    }
}

/// A plain `<<` without properties.
pub open spec fn is_merge(options: ParseOptions, key: Tree) -> bool {
    &&& merges(options)
    &&& key matches Tree::Scalar(props, value, style) && value == seq!['<', '<'] && style
        == ScalarStyle::Plain && props.anchor is None && props.tag is None
}

/// The mappings that a value names as sources: itself, or all of its items.
pub open spec fn sources_of(n: Node) -> Option<Seq<Seq<(Node, Node)>>> {
    match n {
        Node::Mapping(entries) => Some(seq![entries]),
        Node::Sequence(items) => if exists|i: int|
            0 <= i < items.len() && !(#[trigger] items[i] is Mapping) {
            None
        } else {
            Some(Seq::new(items.len(), |i: int| items[i]->Mapping_0))
        },
        _ => None,
    }
}

/// The value of a node and what is known behind it, if it has one.
pub open spec fn value(ctx: Context, t: Tree, w: World) -> Option<(Node, World)>
    decreases t, 0int,
{
    match t {
        Tree::Scalar(props, text, style) => {
            let float = scalar::is_float(text, style, ctx.options.schema);
            if float && !ctx.floats.contains_key(text) {
                None
            } else {
                let bits = if float {
                    ctx.floats[text]
                } else {
                    0
                };
                let n = scalar::resolved(text, style, ctx.options.schema, bits);
                Some((n, named(w, props, n)))
            }
        },
        Tree::Alias(name) => if !w.names.contains_key(name) {
            None
        } else {
            let n = w.names[name];
            let copied = w.copied + size(n);
            if copied > ctx.options.limits.max_aliases {
                None
            } else {
                Some((n, World { copied, ..w }))
            }
        },
        Tree::Sequence(props, items) => match items_value(ctx, items, 0, w, Seq::empty()) {
            None => None,
            Some((nodes, after)) => {
                let n = Node::Sequence(nodes);
                Some((n, named(after, props, n)))
            },
        },
        Tree::Mapping(props, entries) => match entries_value(
            ctx,
            entries,
            0,
            w,
            Seq::empty(),
            Seq::empty(),
        ) {
            None => None,
            Some((nodes, after)) => {
                let n = Node::Mapping(nodes);
                Some((n, named(after, props, n)))
            },
        },
    }
}

/// `had` and the values of the items from item `i` on.
pub open spec fn items_value(ctx: Context, items: Seq<Tree>, i: int, w: World, had: Seq<Node>) -> Option<
    (Seq<Node>, World),
>
    decreases items, items.len() - i,
{
    if 0 <= i < items.len() {
        match value(ctx, items[i], w) {
            None => None,
            Some((n, after)) => items_value(ctx, items, i + 1, after, had.push(n)),
        }
    } else {
        Some((had, w))
    }
}

/// `had` with the entries from entry `i` on, completed from the sources in the end.
pub open spec fn entries_value(
    ctx: Context,
    entries: Seq<(Tree, Tree)>,
    i: int,
    w: World,
    had: Seq<(Node, Node)>,
    sources: Seq<Seq<(Node, Node)>>,
) -> Option<(Seq<(Node, Node)>, World)>
    decreases entries, entries.len() - i,
{
    if 0 <= i < entries.len() {
        match value(ctx, entries[i].0, w) {
            None => None,
            Some((key, between)) => match value(ctx, entries[i].1, between) {
                None => None,
                Some((n, after)) => if is_merge(ctx.options, entries[i].0) {
                    match sources_of(n) {
                        None => None,
                        Some(more) => entries_value(
                            ctx,
                            entries,
                            i + 1,
                            after,
                            had,
                            sources + more,
                        ),
                    }
                } else {
                    entries_value(ctx, entries, i + 1, after, assigned(had, key, n), sources)
                },
            },
        }
    } else {
        Some((complete(had, sources, 0), w))
    }
}

// ---------------------------------------------------------------------------
// Agreement
// ---------------------------------------------------------------------------

spec fn memory(w: World) -> Memory {
    Memory { anchors: w.names, copied: w.copied }
}

proof fn lemma_size(n: Node)
    ensures
        size(n) == model::node_count(n),
    decreases n, 0int,
{
    match n {
        Node::Sequence(items) => lemma_items_size(items, 0),
        Node::Mapping(entries) => lemma_entries_size(entries, 0),
        _ => {},
    }
}

proof fn lemma_items_size(items: Seq<Node>, i: int)
    ensures
        items_size(items, i) == model::items_count(items, i),
    decreases items, items.len() - i,
{
    if 0 <= i < items.len() {
        lemma_size(items[i]);
        lemma_items_size(items, i + 1);
    }
}

proof fn lemma_entries_size(entries: Seq<(Node, Node)>, i: int)
    ensures
        entries_size(entries, i) == model::entries_count(entries, i),
    decreases entries, entries.len() - i,
{
    if 0 <= i < entries.len() {
        lemma_size(entries[i].0);
        lemma_size(entries[i].1);
        lemma_entries_size(entries, i + 1);
    }
}

proof fn lemma_has_key(entries: Seq<(Node, Node)>, key: Node)
    ensures
        has_key(entries, key) == (node::lookup(entries, key) is Some),
{
    node::lemma_place_from(entries, key, 0);
    if let Some(i) = node::place(entries, key) {
        assert(entries[i].0 == key);
    }
}

proof fn lemma_assigned(entries: Seq<(Node, Node)>, key: Node, value: Node)
    requires
        node::distinct_keys(entries),
    ensures
        assigned(entries, key, value) == node::put(entries, key, value),
        node::distinct_keys(assigned(entries, key, value)),
{
    node::lemma_place_from(entries, key, 0);
    lemma_has_key(entries, key);
    let a = assigned(entries, key, value);
    let b = node::put(entries, key, value);
    if let Some(k) = node::place(entries, key) {
        assert forall|i: int| 0 <= i < a.len() implies a[i] == b[i] by {
            if i != k {
                assert(entries[i].0 != entries[k].0);
            }
        }
    }
    assert(a =~= b);
    node::law_put_keeps_keys_distinct(entries, key, value);
}

proof fn lemma_completed(entries: Seq<(Node, Node)>, source: Seq<(Node, Node)>, i: int)
    requires
        0 <= i,
    ensures
        completed(entries, source, i) == model::filled(entries, source, i),
    decreases source.len() - i,
{
    if i < source.len() {
        let (k, v) = source[i];
        lemma_has_key(entries, k);
        let next = if has_key(entries, k) {
            entries
        } else {
            entries.push(source[i])
        };
        lemma_completed(next, source, i + 1);
    }
}

proof fn lemma_complete(entries: Seq<(Node, Node)>, sources: Seq<Seq<(Node, Node)>>, i: int)
    requires
        0 <= i,
    ensures
        complete(entries, sources, i) == model::merged(entries, sources, i),
    decreases sources.len() - i,
{
    if i < sources.len() {
        lemma_completed(entries, sources[i], 0);
        lemma_complete(completed(entries, sources[i], 0), sources, i + 1);
    }
}

/// What composing gives is what the tree means.
spec fn agrees(
    meaning: Option<(Node, World)>,
    composed: Result<(Node, int, Memory), Fault>,
    at: int,
) -> bool {
    match meaning {
        Some((n, w)) => composed == Ok::<(Node, int, Memory), Fault>((n, at, memory(w))),
        None => composed is Err,
    }
}

proof fn lemma_tree(ctx: Context, evs: Seq<Ev>, pos: int, t: Tree, w: World)
    requires
        compose::events_at(evs, pos, events(t)),
    ensures
        agrees(
            value(ctx, t, w),
            model::composed(ctx, evs, pos, memory(w)),
            pos + events(t).len(),
        ),
        events(t).len() > 0,
        event::kind_at(evs, pos) == Some(events(t)[0]),
        events(t)[0] != Happening::SequenceEnd,
        events(t)[0] != Happening::MappingEnd,
    decreases t, 0int,
{
    let hs = events(t);
    assert(evs[pos + 0].kind == hs[0]);
    match t {
        Tree::Scalar(props, text, style) => {},
        Tree::Alias(name) => {
            if w.names.contains_key(name) {
                lemma_size(w.names[name]);
            }
        },
        Tree::Sequence(props, items) => {
            let open = seq![Happening::SequenceStart { anchor: props.anchor, tag: props.tag }];
            let rest = items_events(items, 0) + seq![Happening::SequenceEnd];
            compose::lemma_events_at(evs, pos, open, rest);
            lemma_items(ctx, evs, pos + 1, items, 0, w, Seq::empty());
        },
        Tree::Mapping(props, entries) => {
            let open = seq![Happening::MappingStart { anchor: props.anchor, tag: props.tag }];
            let rest = entries_events(entries, 0) + seq![Happening::MappingEnd];
            compose::lemma_events_at(evs, pos, open, rest);
            lemma_entries(ctx, evs, pos + 1, entries, 0, w, Seq::empty(), Seq::empty());
        },
    }
}

proof fn lemma_items(
    ctx: Context,
    evs: Seq<Ev>,
    pos: int,
    items: Seq<Tree>,
    i: int,
    w: World,
    had: Seq<Node>,
)
    requires
        0 <= i <= items.len(),
        compose::events_at(evs, pos, items_events(items, i) + seq![Happening::SequenceEnd]),
    ensures
        match items_value(ctx, items, i, w, had) {
            Some((nodes, after)) => model::items(ctx, evs, pos, memory(w), had) == Ok::<
                (Seq<Node>, int, Memory),
                Fault,
            >((nodes, pos + items_events(items, i).len() + 1, memory(after))),
            None => model::items(ctx, evs, pos, memory(w), had) is Err,
        },
    decreases items, items.len() - i,
{
    let end = seq![Happening::SequenceEnd];
    if i == items.len() {
        assert(items_events(items, i) + end == end);
        assert(evs[pos + 0].kind == end[0]);
    } else {
        let t = items[i];
        let rest = items_events(items, i + 1) + end;
        assert(items_events(items, i) + end == events(t) + rest);
        compose::lemma_events_at(evs, pos, events(t), rest);
        lemma_tree(ctx, evs, pos, t, w);
        if let Some((n, after)) = value(ctx, t, w) {
            let at = pos + events(t).len();
            lemma_items(ctx, evs, at, items, i + 1, after, had.push(n));
        }
    }
}

proof fn lemma_sources(n: Node)
    ensures
        sources_of(n) == model::merge_sources(n),
{
}

proof fn lemma_merge(ctx: Context, key: Tree)
    ensures
        is_merge(ctx.options, key) == model::is_merge_key(ctx, events(key)[0]),
{
    reveal_strlit("<<");
    assert("<<"@ == seq!['<', '<']);
}

proof fn lemma_entries(
    ctx: Context,
    evs: Seq<Ev>,
    pos: int,
    entries: Seq<(Tree, Tree)>,
    i: int,
    w: World,
    had: Seq<(Node, Node)>,
    sources: Seq<Seq<(Node, Node)>>,
)
    requires
        0 <= i <= entries.len(),
        node::distinct_keys(had),
        compose::events_at(evs, pos, entries_events(entries, i) + seq![Happening::MappingEnd]),
    ensures
        match entries_value(ctx, entries, i, w, had, sources) {
            Some((nodes, after)) => model::pairs(ctx, evs, pos, memory(w), had, sources) == Ok::<
                (Seq<(Node, Node)>, int, Memory),
                Fault,
            >((nodes, pos + entries_events(entries, i).len() + 1, memory(after))),
            None => model::pairs(ctx, evs, pos, memory(w), had, sources) is Err,
        },
    decreases entries, entries.len() - i,
{
    let end = seq![Happening::MappingEnd];
    if i == entries.len() {
        assert(entries_events(entries, i) + end == end);
        assert(evs[pos + 0].kind == end[0]);
        lemma_complete(had, sources, 0);
    } else {
        let (k, v) = entries[i];
        let rest = entries_events(entries, i + 1) + end;
        assert(entries_events(entries, i) + end == events(k) + (events(v) + rest));
        compose::lemma_events_at(evs, pos, events(k), events(v) + rest);
        let middle = pos + events(k).len();
        compose::lemma_events_at(evs, middle, events(v), rest);
        let at = middle + events(v).len();
        lemma_tree(ctx, evs, pos, k, w);
        lemma_merge(ctx, k);
        if let Some((key, between)) = value(ctx, k, w) {
            lemma_tree(ctx, evs, middle, v, between);
            if let Some((n, after)) = value(ctx, v, between) {
                lemma_sources(n);
                if is_merge(ctx.options, k) {
                    if let Some(more) = sources_of(n) {
                        lemma_entries(ctx, evs, at, entries, i + 1, after, had, sources + more);
                    }
                } else {
                    lemma_assigned(had, key, n);
                    let next = assigned(had, key, n);
                    lemma_entries(ctx, evs, at, entries, i + 1, after, next, sources);
                }
            }
        }
    }
}

// ---------------------------------------------------------------------------
// Streams
// ---------------------------------------------------------------------------

/// The events of documents from document `i` on.
pub open spec fn documents_events(ts: Seq<Tree>, i: int) -> Seq<Happening>
    decreases ts.len() - i,
{
    if 0 <= i < ts.len() {
        seq![Happening::DocumentStart] + (events(ts[i]) + (seq![Happening::DocumentEnd]
            + documents_events(ts, i + 1)))
    } else {
        Seq::empty()
    }
}

/// `had` and the values of the documents from document `i` on. No anchor outlives its
/// document, but what aliases copy is counted over all of them.
pub open spec fn documents_value(
    ctx: Context,
    ts: Seq<Tree>,
    i: int,
    copied: nat,
    had: Seq<Node>,
) -> Option<Seq<Node>>
    decreases ts.len() - i,
{
    if 0 <= i < ts.len() {
        match value(ctx, ts[i], World { names: Map::empty(), copied }) {
            None => None,
            Some((n, after)) => documents_value(ctx, ts, i + 1, after.copied, had.push(n)),
        }
    } else {
        Some(had)
    }
}

proof fn lemma_documents(
    ctx: Context,
    evs: Seq<Ev>,
    pos: int,
    ts: Seq<Tree>,
    i: int,
    mem: Memory,
    had: Seq<Node>,
)
    requires
        0 <= i <= ts.len(),
        compose::events_at(evs, pos, documents_events(ts, i) + seq![Happening::StreamEnd]),
    ensures
        match documents_value(ctx, ts, i, mem.copied, had) {
            Some(nodes) => model::documents(ctx, evs, pos, mem, had) == Ok::<Seq<Node>, Fault>(
                nodes,
            ),
            None => model::documents(ctx, evs, pos, mem, had) is Err,
        },
    decreases ts.len() - i,
{
    let end = seq![Happening::StreamEnd];
    if i == ts.len() {
        assert(documents_events(ts, i) + end == end);
        assert(evs[pos + 0].kind == end[0]);
    } else {
        let t = ts[i];
        let open = seq![Happening::DocumentStart];
        let close = seq![Happening::DocumentEnd];
        let rest = documents_events(ts, i + 1) + end;
        assert(documents_events(ts, i) + end == open + (events(t) + (close + rest)));
        compose::lemma_events_at(evs, pos, open, events(t) + (close + rest));
        assert(evs[pos + 0].kind == open[0]);
        compose::lemma_events_at(evs, pos + 1, events(t), close + rest);
        let at = pos + 1 + events(t).len();
        compose::lemma_events_at(evs, at, close, rest);
        assert(evs[at + 0].kind == close[0]);
        let w = World { names: Map::empty(), copied: mem.copied };
        assert(memory(w) == (Memory { anchors: Map::empty(), ..mem }));
        lemma_tree(ctx, evs, pos + 1, t, w);
        if let Some((n, after)) = value(ctx, t, w) {
            lemma_documents(ctx, evs, at + 1, ts, i + 1, memory(after), had.push(n));
        }
    }
}

/// The documents of a stream are composed into their values: an alias is a copy of the node
/// that last had its anchor before it in its document, a key that comes again sets its value
/// anew in its old place, and merge keys complete a mapping with what it does not have
/// itself. Where a document has no value, composing fails.
pub proof fn law_documents_are_composed(ctx: Context, evs: Seq<Ev>, ts: Seq<Tree>)
    requires
        compose::events_at(
            evs,
            0,
            seq![Happening::StreamStart] + (documents_events(ts, 0) + seq![Happening::StreamEnd]),
        ),
    ensures
        match documents_value(ctx, ts, 0, 0, Seq::empty()) {
            Some(nodes) => model::stream(ctx, evs) == Ok::<Seq<Node>, Fault>(nodes),
            None => model::stream(ctx, evs) is Err,
        },
{
    let open = seq![Happening::StreamStart];
    let rest = documents_events(ts, 0) + seq![Happening::StreamEnd];
    compose::lemma_events_at(evs, 0, open, rest);
    assert(evs[0int + 0].kind == open[0]);
    let mem = Memory { anchors: Map::empty(), copied: 0 };
    lemma_documents(ctx, evs, 1, ts, 0, mem, Seq::empty());
}

} // verus!
