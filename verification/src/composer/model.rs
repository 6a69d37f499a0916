//! What an event stream stands for: one value per document.

use crate::error;
use crate::error::{ErrorKind, Fault, Span};
use crate::event;
use crate::event::{Ev, Happening};
use crate::meta::ScalarStyle;
use crate::node;
use crate::node::Node;
use crate::options::ParseOptions;
use crate::scalar;
use vstd::prelude::*;

verus! {

/// What a composition carries along.
#[verifier::ext_equal]
pub struct Memory {
    /// The anchored nodes of the current document.
    pub anchors: Map<Seq<char>, Node>,
    /// How many nodes aliases have copied so far, over all documents.
    pub copied: nat,
}

/// What a composition is told from outside: the options, and which numbers the
/// decimal texts write.
pub struct Context {
    pub options: ParseOptions,
    pub floats: Map<Seq<char>, u64>,
}

/// A fault without a location.
pub open spec fn compose_fault(message: Seq<char>) -> Fault {
    error::bare_fault(ErrorKind::Compose, message)
}

/// The fault of a stream that ends too early.
pub open spec fn truncated() -> Fault {
    compose_fault("unexpected end of event stream"@)
}

// ---------------------------------------------------------------------------
// Aliases
// ---------------------------------------------------------------------------

/// How many nodes a node consists of, itself included.
pub open spec fn node_count(n: Node) -> nat
    decreases n, 0int,
{
    match n {
        Node::Sequence(items) => 1 + items_count(items, 0),
        Node::Mapping(entries) => 1 + entries_count(entries, 0),
        _ => 1,
    }
}

/// How many nodes the items from `i` on consist of.
pub open spec fn items_count(items: Seq<Node>, i: int) -> nat
    decreases items, items.len() - i,
{
    if 0 <= i < items.len() {
        node_count(items[i]) + items_count(items, i + 1)
    } else {
        0
    }
}

/// How many nodes the entries from `i` on consist of.
pub open spec fn entries_count(entries: Seq<(Node, Node)>, i: int) -> nat
    decreases entries, entries.len() - i,
{
    if 0 <= i < entries.len() {
        node_count(entries[i].0) + node_count(entries[i].1) + entries_count(entries, i + 1)
    } else {
        0
    }
}

/// The memory with `n` under the anchor, if there is one.
pub open spec fn anchored(mem: Memory, anchor: Option<Seq<char>>, n: Node) -> Memory {
    match anchor {
        Some(name) => Memory { anchors: mem.anchors.insert(name, n), ..mem },
        None => mem,
    }
}

/// The node that an alias stands for. What aliases copy is counted and limited.
pub open spec fn alias(mem: Memory, name: Seq<char>, span: Span, limit: nat) -> Result<
    (Node, Memory),
    Fault,
> {
    if !mem.anchors.contains_key(name) {
        Err(error::fault(ErrorKind::Compose, "undefined alias '"@ + name + "'"@, span))
    } else {
        let n = mem.anchors[name];
        let copied = mem.copied + node_count(n);
        if copied > limit {
            Err(
                error::fault(
                    ErrorKind::LimitExceeded,
                    "maximum alias expansion exceeded"@,
                    span,
                ),
            )
        } else {
            Ok((n, Memory { copied, ..mem }))
        }
    }
}

// ---------------------------------------------------------------------------
// Scalars
// ---------------------------------------------------------------------------

/// The value of a scalar. A decimal number must be among the known floats.
pub open spec fn scalar_node(ctx: Context, value: Seq<char>, style: ScalarStyle, span: Span) -> Result<
    Node,
    Fault,
> {
    if !scalar::is_float(value, style, ctx.options.schema) {
        Ok(scalar::resolved(value, style, ctx.options.schema, 0))
    } else if ctx.floats.contains_key(value) {
        Ok(scalar::resolved(value, style, ctx.options.schema, ctx.floats[value]))
    } else {
        Err(
            error::fault(
                ErrorKind::Compose,
                "the value of the float '"@ + value + "' is not known"@,
                span,
            ),
        )
    }
}

/// The event is a scalar whose float the composition asks for.
pub open spec fn asks_float(options: ParseOptions, kind: Happening) -> bool {
    kind matches Happening::Scalar { value, style, anchor, tag } && scalar::is_float(
        value,
        style,
        options.schema,
    )
}

/// The decimal texts that the events from `i` on ask for.
pub open spec fn float_texts(options: ParseOptions, evs: Seq<Ev>, i: int) -> Seq<Seq<char>>
    decreases evs.len() - i,
{
    if 0 <= i < evs.len() {
        let rest = float_texts(options, evs, i + 1);
        if asks_float(options, evs[i].kind) {
            seq![evs[i].kind->value] + rest
        } else {
            rest
        }
    } else {
        Seq::empty()
    }
}

// ---------------------------------------------------------------------------
// Merge keys
// ---------------------------------------------------------------------------

/// The event is a `<<` key that asks for a merge.
pub open spec fn is_merge_key(ctx: Context, kind: Happening) -> bool {
    &&& ctx.options.merge_keys.honored(ctx.options.schema)
    &&& kind matches Happening::Scalar { value, style, anchor, tag } && value == "<<"@ && style
        == ScalarStyle::Plain && anchor is None && tag is None
}

/// The mappings that the value of a merge key names: itself, or the items of a
/// sequence, all of which must be mappings.
pub open spec fn merge_sources(n: Node) -> Option<Seq<Seq<(Node, Node)>>> {
    match n {
        Node::Mapping(entries) => Some(seq![entries]),
        Node::Sequence(items) => if forall|i: int| 0 <= i < items.len() ==> #[trigger] items[i] is Mapping {
            Some(Seq::new(items.len(), |i: int| items[i]->Mapping_0))
        } else {
            None
        },
        _ => None,
    }
}

/// `entries`, and from `source` on from `i` the keys that are missing there.
pub open spec fn filled(
    entries: Seq<(Node, Node)>,
    source: Seq<(Node, Node)>,
    i: int,
) -> Seq<(Node, Node)>
    decreases source.len() - i,
{
    if 0 <= i < source.len() {
        let next = if node::lookup(entries, source[i].0) is Some {
            entries
        } else {
            node::put(entries, source[i].0, source[i].1)
        };
        filled(next, source, i + 1)
    } else {
        entries
    }
}

/// `entries` filled up from each of the sources in turn, from source `i` on.
pub open spec fn merged(
    entries: Seq<(Node, Node)>,
    sources: Seq<Seq<(Node, Node)>>,
    i: int,
) -> Seq<(Node, Node)>
    decreases sources.len() - i,
{
    if 0 <= i < sources.len() {
        merged(filled(entries, sources[i], 0), sources, i + 1)
    } else {
        entries
    }
}

// ---------------------------------------------------------------------------
// Nodes
// ---------------------------------------------------------------------------

/// The node at `pos`, the place after it, and the memory after it.
pub open spec fn composed(ctx: Context, evs: Seq<Ev>, pos: int, mem: Memory) -> Result<
    (Node, int, Memory),
    Fault,
>
    decreases event::left(evs, pos), 0int,
{
    match event::kind_at(evs, pos) {
        None => Err(truncated()),
        Some(Happening::Scalar { value, style, anchor, tag }) => match scalar_node(
            ctx,
            value,
            style,
            evs[pos].span,
        ) {
            Err(f) => Err(f),
            Ok(n) => Ok((n, pos + 1, anchored(mem, anchor, n))),
        },
        Some(Happening::Alias(name)) => match alias(
            mem,
            name,
            evs[pos].span,
            ctx.options.limits.max_aliases as nat,
        ) {
            Err(f) => Err(f),
            Ok((n, after)) => Ok((n, pos + 1, after)),
        },
        Some(Happening::SequenceStart { anchor, tag }) => match items(
            ctx,
            evs,
            pos + 1,
            mem,
            Seq::empty(),
        ) {
            Err(f) => Err(f),
            Ok((nodes, at, after)) => {
                let n = Node::Sequence(nodes);
                Ok((n, at, anchored(after, anchor, n)))
            },
        },
        Some(Happening::MappingStart { anchor, tag }) => match pairs(
            ctx,
            evs,
            pos + 1,
            mem,
            Seq::empty(),
            Seq::empty(),
        ) {
            Err(f) => Err(f),
            Ok((entries, at, after)) => {
                let n = Node::Mapping(entries);
                Ok((n, at, anchored(after, anchor, n)))
            },
        },
        Some(kind) => Err(
            compose_fault("unexpected event while composing a node: "@ + event::event_words(kind)),
        ),
    }
}

/// `had` and the items of a sequence from `pos` up to its end.
pub open spec fn items(ctx: Context, evs: Seq<Ev>, pos: int, mem: Memory, had: Seq<Node>) -> Result<
    (Seq<Node>, int, Memory),
    Fault,
>
    decreases event::left(evs, pos), 1int,
{
    match event::kind_at(evs, pos) {
        None => Err(compose_fault("unterminated sequence in event stream"@)),
        Some(Happening::SequenceEnd) => Ok((had, pos + 1, mem)),
        Some(_) => match composed(ctx, evs, pos, mem) {
            Err(f) => Err(f),
            Ok((n, at, after)) => if pos < at {
                items(ctx, evs, at, after, had.push(n))
            } else {
                Ok((had, at, after))
            },
        },
    }
}

/// `had` and the entries of a mapping from `pos` up to its end; then the sources
/// of its merge keys fill it up.
pub open spec fn pairs(
    ctx: Context,
    evs: Seq<Ev>,
    pos: int,
    mem: Memory,
    had: Seq<(Node, Node)>,
    sources: Seq<Seq<(Node, Node)>>,
) -> Result<(Seq<(Node, Node)>, int, Memory), Fault>
    decreases event::left(evs, pos), 1int,
{
    match event::kind_at(evs, pos) {
        None => Err(compose_fault("unterminated mapping in event stream"@)),
        Some(Happening::MappingEnd) => Ok((merged(had, sources, 0), pos + 1, mem)),
        Some(kind) => match composed(ctx, evs, pos, mem) {
            Err(f) => Err(f),
            Ok((key, middle, between)) => if !(pos < middle) {
                Ok((had, middle, between))
            } else {
                match composed(ctx, evs, middle, between) {
                    Err(f) => Err(f),
                    Ok((value, at, after)) => if !(middle < at) {
                        Ok((had, at, after))
                    } else if is_merge_key(ctx, kind) {
                        match merge_sources(value) {
                            Some(more) => pairs(ctx, evs, at, after, had, sources + more),
                            None => Err(
                                error::fault(
                                    ErrorKind::Compose,
                                    "a merge key takes a mapping or a sequence of mappings"@,
                                    evs[pos].span,
                                ),
                            ),
                        }
                    } else {
                        pairs(ctx, evs, at, after, node::put(had, key, value), sources)
                    },
                }
            },
        },
    }
}

// ---------------------------------------------------------------------------
// Documents
// ---------------------------------------------------------------------------

/// The document whose start is at `pos`. Anchors do not outlive their document.
pub open spec fn document(ctx: Context, evs: Seq<Ev>, pos: int, mem: Memory) -> Result<
    (Node, int, Memory),
    Fault,
> {
    match composed(ctx, evs, pos + 1, Memory { anchors: Map::empty(), ..mem }) {
        Err(f) => Err(f),
        Ok((n, at, after)) => match event::kind_at(evs, at) {
            None => Err(truncated()),
            Some(Happening::DocumentEnd) => Ok((n, at + 1, after)),
            Some(kind) => Err(
                compose_fault("expected document end, found "@ + event::event_words(kind)),
            ),
        },
    }
}

/// `had` and the documents from `pos` up to the end of the stream.
pub open spec fn documents(
    ctx: Context,
    evs: Seq<Ev>,
    pos: int,
    mem: Memory,
    had: Seq<Node>,
) -> Result<Seq<Node>, Fault>
    decreases event::left(evs, pos),
{
    match event::kind_at(evs, pos) {
        None => Ok(had),
        Some(Happening::StreamEnd) => Ok(had),
        Some(Happening::DocumentStart) => match document(ctx, evs, pos, mem) {
            Err(f) => Err(f),
            Ok((n, at, after)) => if pos < at {
                documents(ctx, evs, at, after, had.push(n))
            } else {
                Ok(had)
            },
        },
        Some(kind) => Err(
            error::fault(
                ErrorKind::Compose,
                "expected document or stream end, found "@ + event::event_words(kind),
                evs[pos].span,
            ),
        ),
    }
}

/// The values of a whole event stream.
pub open spec fn stream(ctx: Context, evs: Seq<Ev>) -> Result<Seq<Node>, Fault> {
    match event::kind_at(evs, 0) {
        None => Err(truncated()),
        Some(Happening::StreamStart) => documents(
            ctx,
            evs,
            1,
            Memory { anchors: Map::empty(), copied: 0 },
            Seq::empty(),
        ),
        Some(kind) => Err(
            compose_fault("expected stream start, found "@ + event::event_words(kind)),
        ),
    }
}

} // verus!
