//! What holds of every composition.

use crate::composer::model;
use crate::composer::model::{Context, Memory};
use crate::error::{ErrorKind, Fault};
use crate::event;
use crate::event::{Ev, Happening};
use crate::node;
use crate::node::Node;
use crate::parser::shape;
use crate::scalar;
use vstd::prelude::*;

verus! {

// ---------------------------------------------------------------------------
// Merge keys
// ---------------------------------------------------------------------------

/// Filling up keeps what is there, in its place, and adds what is missing.
proof fn lemma_filled(
    entries: Seq<(Node, Node)>,
    source: Seq<(Node, Node)>,
    i: int,
    key: Node,
)
    requires
        0 <= i,
    ensures
        entries.is_prefix_of(model::filled(entries, source, i)),
        node::distinct_keys(entries) ==> node::distinct_keys(model::filled(entries, source, i)),
        node::lookup(model::filled(entries, source, i), key) == (if node::lookup(
            entries,
            key,
        ) is Some {
            node::lookup(entries, key)
        } else {
            match node::place_from(source, key, i) {
                Some(j) => Some(source[j].1),
                None => None,
            }
        }),
    decreases source.len() - i,
{
    if i < source.len() {
        let (k, v) = source[i];
        if node::lookup(entries, k) is Some {
            lemma_filled(entries, source, i + 1, key);
        } else {
            let next = node::put(entries, k, v);
            node::law_lookup_after_put(entries, k, v, key);
            if node::distinct_keys(entries) {
                node::law_put_keeps_keys_distinct(entries, k, v);
            }
            lemma_filled(next, source, i + 1, key);
            assert(entries.is_prefix_of(next));
        }
    }
}

/// Merging sources keeps the entries that are there: each keeps its place, its
/// key and its value, and what is merged in goes behind them.
pub proof fn law_merge_keeps_entries(
    entries: Seq<(Node, Node)>,
    sources: Seq<Seq<(Node, Node)>>,
    i: int,
)
    requires
        0 <= i,
    ensures
        entries.is_prefix_of(model::merged(entries, sources, i)),
        node::distinct_keys(entries) ==> node::distinct_keys(model::merged(entries, sources, i)),
    decreases sources.len() - i,
{
    if i < sources.len() {
        let next = model::filled(entries, sources[i], 0);
        lemma_filled(entries, sources[i], 0, Node::Null);
        law_merge_keeps_entries(next, sources, i + 1);
    }
}

/// The value that the first of the sources from `i` on which has the key gives.
pub open spec fn first_value(sources: Seq<Seq<(Node, Node)>>, i: int, key: Node) -> Option<Node>
    decreases sources.len() - i,
{
    if !(0 <= i < sources.len()) {
        None
    } else if node::lookup(sources[i], key) is Some {
        node::lookup(sources[i], key)
    } else {
        first_value(sources, i + 1, key)
    }
}

/// A key that a mapping has itself keeps its value whatever is merged in; any
/// other key gets its value from the first source that has it.
pub proof fn law_merge_precedence(
    entries: Seq<(Node, Node)>,
    sources: Seq<Seq<(Node, Node)>>,
    i: int,
    key: Node,
)
    requires
        0 <= i,
    ensures
        node::lookup(model::merged(entries, sources, i), key) == (if node::lookup(
            entries,
            key,
        ) is Some {
            node::lookup(entries, key)
        } else {
            first_value(sources, i, key)
        }),
    decreases sources.len() - i,
{
    if i < sources.len() {
        lemma_filled(entries, sources[i], 0, key);
        law_merge_precedence(model::filled(entries, sources[i], 0), sources, i + 1, key);
    }
}

// ---------------------------------------------------------------------------
// Whole streams
// ---------------------------------------------------------------------------

/// A fault that composing a whole stream can give: it is of the composer or of a
/// limit, and it says where it is.
pub open spec fn is_compose_fault(f: Fault) -> bool {
    (f.kind == ErrorKind::Compose || f.kind == ErrorKind::LimitExceeded) && f.span is Some
}

/// The copies so far are within the limit.
pub open spec fn within(ctx: Context, mem: Memory) -> bool {
    mem.copied <= ctx.options.limits.max_aliases
}

/// What `after` has copied is no less than what `mem` had, and within the limit.
pub open spec fn copies(ctx: Context, mem: Memory, after: Memory) -> bool {
    mem.copied <= after.copied && (within(ctx, mem) ==> within(ctx, after))
}

/// Composing a node goes forward, and never copies more than the limit allows. A
/// whole node is composed up to its end, or the fault says where it is.
pub proof fn law_node_composes(ctx: Context, evs: Seq<Ev>, pos: int, mem: Memory, deep: nat)
    ensures
        model::composed(ctx, evs, pos, mem) matches Ok((_, at, after)) ==> {
            &&& pos < at
            &&& copies(ctx, mem, after)
            &&& shape::node_end(evs, pos, deep) is Some ==> shape::node_end(evs, pos, deep) == Some(
                at,
            )
        },
        model::composed(ctx, evs, pos, mem) matches Err(f) ==> shape::node_end(
            evs,
            pos,
            deep,
        ) is Some ==> is_compose_fault(f),
    decreases event::left(evs, pos), 0int,
{
    let inner = (if deep > 0 { deep - 1 } else { 0 }) as nat;
    match event::kind_at(evs, pos) {
        Some(Happening::SequenceStart { anchor, tag }) => {
            lemma_items(ctx, evs, pos + 1, mem, Seq::empty(), inner);
        },
        Some(Happening::MappingStart { anchor, tag }) => {
            lemma_pairs(ctx, evs, pos + 1, mem, Seq::empty(), Seq::empty(), inner);
        },
        _ => {},
    }
}

proof fn lemma_items(
    ctx: Context,
    evs: Seq<Ev>,
    pos: int,
    mem: Memory,
    had: Seq<Node>,
    deep: nat,
)
    ensures
        model::items(ctx, evs, pos, mem, had) matches Ok((_, at, after)) ==> {
            &&& pos < at
            &&& copies(ctx, mem, after)
            &&& shape::items_end(evs, pos, deep) is Some ==> shape::items_end(evs, pos, deep)
                == Some(at)
        },
        model::items(ctx, evs, pos, mem, had) matches Err(f) ==> shape::items_end(
            evs,
            pos,
            deep,
        ) is Some ==> is_compose_fault(f),
    decreases event::left(evs, pos), 1int,
{
    match event::kind_at(evs, pos) {
        None => {},
        Some(Happening::SequenceEnd) => {},
        Some(_) => {
            law_node_composes(ctx, evs, pos, mem, deep);
            if let Ok((n, at, after)) = model::composed(ctx, evs, pos, mem) {
                lemma_items(ctx, evs, at, after, had.push(n), deep);
            }
        },
    }
}

proof fn lemma_pairs(
    ctx: Context,
    evs: Seq<Ev>,
    pos: int,
    mem: Memory,
    had: Seq<(Node, Node)>,
    sources: Seq<Seq<(Node, Node)>>,
    deep: nat,
)
    ensures
        model::pairs(ctx, evs, pos, mem, had, sources) matches Ok((_, at, after)) ==> {
            &&& pos < at
            &&& copies(ctx, mem, after)
            &&& shape::pairs_end(evs, pos, deep) is Some ==> shape::pairs_end(evs, pos, deep)
                == Some(at)
        },
        model::pairs(ctx, evs, pos, mem, had, sources) matches Err(f) ==> shape::pairs_end(
            evs,
            pos,
            deep,
        ) is Some ==> is_compose_fault(f),
    decreases event::left(evs, pos), 1int,
{
    match event::kind_at(evs, pos) {
        None => {},
        Some(Happening::MappingEnd) => {},
        Some(kind) => {
            law_node_composes(ctx, evs, pos, mem, deep);
            if let Ok((key, middle, between)) = model::composed(ctx, evs, pos, mem) {
                law_node_composes(ctx, evs, middle, between, deep);
                if let Ok((value, at, after)) = model::composed(ctx, evs, middle, between) {
                    if model::is_merge_key(ctx, kind) {
                        if let Some(more) = model::merge_sources(value) {
                            lemma_pairs(ctx, evs, at, after, had, sources + more, deep);
                        }
                    } else {
                        let put = node::put(had, key, value);
                        lemma_pairs(ctx, evs, at, after, put, sources, deep);
                    }
                }
            }
        },
    }
}

proof fn lemma_documents(
    ctx: Context,
    evs: Seq<Ev>,
    pos: int,
    mem: Memory,
    had: Seq<Node>,
    deep: nat,
)
    requires
        shape::are_documents(evs, pos, deep),
    ensures
        match model::documents(ctx, evs, pos, mem, had) {
            Ok(nodes) => nodes.len() == had.len() + shape::document_count(evs, pos, deep),
            Err(f) => is_compose_fault(f),
        },
    decreases event::left(evs, pos),
{
    if event::kind_at(evs, pos) == Some(Happening::DocumentStart) {
        let fresh = Memory { anchors: Map::empty(), ..mem };
        law_node_composes(ctx, evs, pos + 1, fresh, deep);
        if let Ok((n, at, after)) = model::document(ctx, evs, pos, mem) {
            lemma_documents(ctx, evs, at, after, had.push(n), deep);
        }
    }
}

/// A whole event stream, such as every parse gives, is composed into one value
/// per document, or the fault says where it is: no fault is about the shape of
/// the stream.
pub proof fn law_whole_streams_compose(ctx: Context, evs: Seq<Ev>, deep: nat)
    requires
        shape::is_stream(evs, deep),
    ensures
        match model::stream(ctx, evs) {
            Ok(nodes) => nodes.len() == shape::document_count(evs, 1, deep),
            Err(f) => is_compose_fault(f),
        },
{
    lemma_documents(
        ctx,
        evs,
        1,
        Memory { anchors: Map::empty(), copied: 0 },
        Seq::empty(),
        deep,
    );
}

/// The text of a scalar that asks for a float is among the texts of the stream.
proof fn lemma_float_text(ctx: Context, evs: Seq<Ev>, from: int, i: int)
    requires
        0 <= from <= i < evs.len(),
        model::asks_float(ctx.options, evs[i].kind),
    ensures
        model::float_texts(ctx.options, evs, from).contains(evs[i].kind->value),
    decreases i - from,
{
    let rest = model::float_texts(ctx.options, evs, from + 1);
    let all = model::float_texts(ctx.options, evs, from);
    if from < i {
        lemma_float_text(ctx, evs, from + 1, i);
        let k = choose|k: int| 0 <= k < rest.len() && rest[k] == evs[i].kind->value;
        if model::asks_float(ctx.options, evs[from].kind) {
            assert(all[k + 1] == rest[k]);
        }
    } else {
        assert(all[0] == evs[i].kind->value);
    }
}

/// Where the numbers of all the decimal texts of a stream are known, every scalar
/// of the stream has a value.
pub proof fn law_known_floats_are_enough(ctx: Context, evs: Seq<Ev>, i: int)
    requires
        forall|text: Seq<char>| #[trigger]
            model::float_texts(ctx.options, evs, 0).contains(text) ==> ctx.floats.contains_key(
                text,
            ),
        0 <= i < evs.len(),
    ensures
        evs[i].kind matches Happening::Scalar { value, style, anchor, tag } ==> model::scalar_node(
            ctx,
            value,
            style,
            evs[i].span,
        ) is Ok,
{
    if model::asks_float(ctx.options, evs[i].kind) {
        lemma_float_text(ctx, evs, 0, i);
    }
}

// ---------------------------------------------------------------------------
// Distinct keys
// ---------------------------------------------------------------------------

/// The entries of a mapping that is valid.
pub open spec fn are_valid(entries: Seq<(Node, Node)>) -> bool {
    &&& node::distinct_keys(entries)
    &&& forall|i: int|
        0 <= i < entries.len() ==> node::is_valid((#[trigger] entries[i]).0) && node::is_valid(
            entries[i].1,
        )
}

/// Every anchored node is valid.
pub open spec fn anchors_valid(mem: Memory) -> bool {
    forall|name: Seq<char>| #[trigger]
        mem.anchors.contains_key(name) ==> node::is_valid(mem.anchors[name])
}

/// Every source of a merge is valid.
pub open spec fn sources_valid(sources: Seq<Seq<(Node, Node)>>) -> bool {
    forall|i: int| 0 <= i < sources.len() ==> are_valid(#[trigger] sources[i])
}

proof fn lemma_put_valid(entries: Seq<(Node, Node)>, key: Node, value: Node)
    requires
        are_valid(entries),
        node::is_valid(key),
        node::is_valid(value),
    ensures
        are_valid(node::put(entries, key, value)),
{
    node::law_put_keeps_keys_distinct(entries, key, value);
    node::lemma_place_from(entries, key, 0);
}

proof fn lemma_filled_valid(entries: Seq<(Node, Node)>, source: Seq<(Node, Node)>, i: int)
    requires
        0 <= i,
        are_valid(entries),
        are_valid(source),
    ensures
        are_valid(model::filled(entries, source, i)),
    decreases source.len() - i,
{
    if i < source.len() {
        let (k, v) = source[i];
        if node::lookup(entries, k) is Some {
            lemma_filled_valid(entries, source, i + 1);
        } else {
            lemma_put_valid(entries, k, v);
            lemma_filled_valid(node::put(entries, k, v), source, i + 1);
        }
    }
}

proof fn lemma_merged_valid(
    entries: Seq<(Node, Node)>,
    sources: Seq<Seq<(Node, Node)>>,
    i: int,
)
    requires
        0 <= i,
        are_valid(entries),
        sources_valid(sources),
    ensures
        are_valid(model::merged(entries, sources, i)),
    decreases sources.len() - i,
{
    if i < sources.len() {
        lemma_filled_valid(entries, sources[i], 0);
        lemma_merged_valid(model::filled(entries, sources[i], 0), sources, i + 1);
    }
}

/// No mapping of a composed node has a key twice, however often the text repeats
/// a key or merges it in; the nodes under anchors stay that way too.
pub proof fn law_composed_keys_are_distinct(ctx: Context, evs: Seq<Ev>, pos: int, mem: Memory)
    requires
        anchors_valid(mem),
    ensures
        model::composed(ctx, evs, pos, mem) matches Ok((n, _, after)) ==> node::is_valid(n)
            && anchors_valid(after),
    decreases event::left(evs, pos), 0int,
{
    match event::kind_at(evs, pos) {
        Some(Happening::Scalar { value, style, anchor, tag }) => {
            let bits = ctx.floats[value];
            scalar::law_scalars_resolve_to_scalars(value, style, ctx.options.schema, 0);
            scalar::law_scalars_resolve_to_scalars(value, style, ctx.options.schema, bits);
        },
        Some(Happening::SequenceStart { anchor, tag }) => {
            lemma_items_valid(ctx, evs, pos + 1, mem, Seq::empty());
        },
        Some(Happening::MappingStart { anchor, tag }) => {
            lemma_pairs_valid(ctx, evs, pos + 1, mem, Seq::empty(), Seq::empty());
        },
        _ => {},
    }
}

proof fn lemma_items_valid(ctx: Context, evs: Seq<Ev>, pos: int, mem: Memory, had: Seq<Node>)
    requires
        anchors_valid(mem),
        forall|i: int| 0 <= i < had.len() ==> node::is_valid(#[trigger] had[i]),
    ensures
        model::items(ctx, evs, pos, mem, had) matches Ok((nodes, _, after)) ==> anchors_valid(after)
            && forall|i: int| 0 <= i < nodes.len() ==> node::is_valid(#[trigger] nodes[i]),
    decreases event::left(evs, pos), 1int,
{
    match event::kind_at(evs, pos) {
        None => {},
        Some(Happening::SequenceEnd) => {},
        Some(_) => {
            law_composed_keys_are_distinct(ctx, evs, pos, mem);
            if let Ok((n, at, after)) = model::composed(ctx, evs, pos, mem) {
                if pos < at {
                    lemma_items_valid(ctx, evs, at, after, had.push(n));
                }
            }
        },
    }
}

proof fn lemma_pairs_valid(
    ctx: Context,
    evs: Seq<Ev>,
    pos: int,
    mem: Memory,
    had: Seq<(Node, Node)>,
    sources: Seq<Seq<(Node, Node)>>,
)
    requires
        anchors_valid(mem),
        are_valid(had),
        sources_valid(sources),
    ensures
        model::pairs(ctx, evs, pos, mem, had, sources) matches Ok((entries, _, after))
            ==> anchors_valid(after) && are_valid(entries),
    decreases event::left(evs, pos), 1int,
{
    match event::kind_at(evs, pos) {
        None => {},
        Some(Happening::MappingEnd) => {
            lemma_merged_valid(had, sources, 0);
        },
        Some(kind) => {
            law_composed_keys_are_distinct(ctx, evs, pos, mem);
            if let Ok((key, middle, between)) = model::composed(ctx, evs, pos, mem) {
                if pos < middle {
                    law_composed_keys_are_distinct(ctx, evs, middle, between);
                    if let Ok((value, at, after)) = model::composed(ctx, evs, middle, between) {
                        if middle < at {
                            if model::is_merge_key(ctx, kind) {
                                if let Some(more) = model::merge_sources(value) {
                                    lemma_sources_valid(value);
                                    lemma_pairs_valid(ctx, evs, at, after, had, sources + more);
                                }
                            } else {
                                lemma_put_valid(had, key, value);
                                let put = node::put(had, key, value);
                                lemma_pairs_valid(ctx, evs, at, after, put, sources);
                            }
                        }
                    }
                }
            }
        },
    }
}

/// The values of a stream are valid: see [`law_composed_keys_are_distinct`].
pub proof fn law_streams_give_valid_values(ctx: Context, evs: Seq<Ev>)
    ensures
        model::stream(ctx, evs) matches Ok(nodes) ==> forall|i: int|
            0 <= i < nodes.len() ==> node::is_valid(#[trigger] nodes[i]),
{
    lemma_documents_valid(
        ctx,
        evs,
        1,
        Memory { anchors: Map::empty(), copied: 0 },
        Seq::empty(),
    );
}

proof fn lemma_documents_valid(ctx: Context, evs: Seq<Ev>, pos: int, mem: Memory, had: Seq<Node>)
    requires
        forall|i: int| 0 <= i < had.len() ==> node::is_valid(#[trigger] had[i]),
    ensures
        model::documents(ctx, evs, pos, mem, had) matches Ok(nodes) ==> forall|i: int|
            0 <= i < nodes.len() ==> node::is_valid(#[trigger] nodes[i]),
    decreases event::left(evs, pos),
{
    if event::kind_at(evs, pos) == Some(Happening::DocumentStart) {
        let fresh = Memory { anchors: Map::empty(), ..mem };
        law_composed_keys_are_distinct(ctx, evs, pos + 1, fresh);
        if let Ok((n, at, after)) = model::document(ctx, evs, pos, mem) {
            if pos < at {
                lemma_documents_valid(ctx, evs, at, after, had.push(n));
            }
        }
    }
}

// ---------------------------------------------------------------------------
// Limits
// ---------------------------------------------------------------------------

/// The contexts differ in their limits only, and the second allows no fewer copies.
pub open spec fn allows_more(ctx: Context, more: Context) -> bool {
    &&& more.floats == ctx.floats
    &&& more.options.schema == ctx.options.schema
    &&& more.options.merge_keys == ctx.options.merge_keys
    &&& ctx.options.limits.max_aliases <= more.options.limits.max_aliases
}

proof fn lemma_composed_kept(ctx: Context, more: Context, evs: Seq<Ev>, pos: int, mem: Memory)
    requires
        allows_more(ctx, more),
    ensures
        model::composed(ctx, evs, pos, mem) is Ok ==> model::composed(more, evs, pos, mem)
            == model::composed(ctx, evs, pos, mem),
    decreases event::left(evs, pos), 0int,
{
    match event::kind_at(evs, pos) {
        Some(Happening::SequenceStart { .. }) => {
            lemma_items_kept(ctx, more, evs, pos + 1, mem, Seq::empty());
        },
        Some(Happening::MappingStart { .. }) => {
            lemma_pairs_kept(ctx, more, evs, pos + 1, mem, Seq::empty(), Seq::empty());
        },
        _ => {},
    }
}

proof fn lemma_items_kept(
    ctx: Context,
    more: Context,
    evs: Seq<Ev>,
    pos: int,
    mem: Memory,
    had: Seq<Node>,
)
    requires
        allows_more(ctx, more),
    ensures
        model::items(ctx, evs, pos, mem, had) is Ok ==> model::items(more, evs, pos, mem, had)
            == model::items(ctx, evs, pos, mem, had),
    decreases event::left(evs, pos), 1int,
{
    if event::kind_at(evs, pos) is Some {
        lemma_composed_kept(ctx, more, evs, pos, mem);
        if let Ok((n, at, after)) = model::composed(ctx, evs, pos, mem) {
            if pos < at {
                lemma_items_kept(ctx, more, evs, at, after, had.push(n));
            }
        }
    }
}

proof fn lemma_pairs_kept(
    ctx: Context,
    more: Context,
    evs: Seq<Ev>,
    pos: int,
    mem: Memory,
    had: Seq<(Node, Node)>,
    sources: Seq<Seq<(Node, Node)>>,
)
    requires
        allows_more(ctx, more),
    ensures
        model::pairs(ctx, evs, pos, mem, had, sources) is Ok ==> model::pairs(
            more,
            evs,
            pos,
            mem,
            had,
            sources,
        ) == model::pairs(ctx, evs, pos, mem, had, sources),
    decreases event::left(evs, pos), 1int,
{
    if let Some(kind) = event::kind_at(evs, pos) {
        lemma_composed_kept(ctx, more, evs, pos, mem);
        if let Ok((key, middle, between)) = model::composed(ctx, evs, pos, mem) {
            if pos < middle {
                lemma_composed_kept(ctx, more, evs, middle, between);
                if let Ok((value, at, after)) = model::composed(ctx, evs, middle, between) {
                    if middle < at {
                        if let Some(found) = model::merge_sources(value) {
                            lemma_pairs_kept(ctx, more, evs, at, after, had, sources + found);
                        }
                        lemma_pairs_kept(
                            ctx,
                            more,
                            evs,
                            at,
                            after,
                            node::put(had, key, value),
                            sources,
                        );
                    }
                }
            }
        }
    }
}

proof fn lemma_documents_kept(
    ctx: Context,
    more: Context,
    evs: Seq<Ev>,
    pos: int,
    mem: Memory,
    had: Seq<Node>,
)
    requires
        allows_more(ctx, more),
    ensures
        model::documents(ctx, evs, pos, mem, had) is Ok ==> model::documents(
            more,
            evs,
            pos,
            mem,
            had,
        ) == model::documents(ctx, evs, pos, mem, had),
    decreases event::left(evs, pos),
{
    if event::kind_at(evs, pos) == Some(Happening::DocumentStart) {
        let fresh = Memory { anchors: Map::empty(), ..mem };
        lemma_composed_kept(ctx, more, evs, pos + 1, fresh);
        if let Ok((n, at, after)) = model::document(ctx, evs, pos, mem) {
            if pos < at {
                lemma_documents_kept(ctx, more, evs, at, after, had.push(n));
            }
        }
    }
}

/// Allowing aliases to copy more never turns a success into an error, and never changes
/// the values.
pub proof fn law_more_copies_keep_values(ctx: Context, more: Context, evs: Seq<Ev>)
    requires
        allows_more(ctx, more),
    ensures
        model::stream(ctx, evs) matches Ok(nodes) ==> model::stream(more, evs) == Ok::<
            Seq<Node>,
            Fault,
        >(nodes),
{
    let start = Memory { anchors: Map::empty(), copied: 0 };
    lemma_documents_kept(ctx, more, evs, 1, start, Seq::empty());
}

proof fn lemma_sources_valid(value: Node)
    requires
        node::is_valid(value),
    ensures
        model::merge_sources(value) matches Some(sources) ==> sources_valid(sources),
{
    if let Node::Sequence(items) = value {
        if let Some(sources) = model::merge_sources(value) {
            assert forall|i: int| 0 <= i < sources.len() implies are_valid(
                #[trigger] sources[i],
            ) by {
                assert(items[i] is Mapping);
                assert(node::is_valid(items[i]));
            }
        }
    }
}

} // verus!
