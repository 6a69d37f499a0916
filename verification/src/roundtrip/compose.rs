//! Values: the composer reads the events of a value as that value.

use crate::composer::model;
use crate::composer::model::{Context, Memory};
use crate::emitter;
use crate::error::Fault;
use crate::event;
use crate::event::{Ev, Happening};
use crate::floats::Floats;
use crate::meta::ScalarStyle;
use crate::node;
use crate::node::Node;
use crate::options::{ParseOptions, Schema};
use crate::roundtrip::leaf;
use crate::roundtrip::parse;
use crate::roundtrip::scan;
use crate::scalar;
use crate::scanner::token::Lexeme;
use vstd::prelude::*;

verus! {

/// The text of a scalar is read as the scalar.
pub open spec fn is_resolved(options: ParseOptions, n: Node, floats: Floats) -> bool {
    match scan::scalar_lexeme(n, floats.texts) {
        Lexeme::Scalar { value, style } => if scalar::is_float(value, style, options.schema) {
            &&& floats.bits.contains_key(value)
            &&& scalar::resolved(value, style, options.schema, floats.bits[value]) == n
        } else {
            scalar::resolved(value, style, options.schema, 0) == n
        },
        _ => false,
    }
}

/// The key is written like a merge key.
pub open spec fn looks_like_merge(n: Node, floats: Floats) -> bool {
    &&& !(n is Sequence)
    &&& !(n is Mapping)
    &&& scan::scalar_lexeme(n, floats.texts) == (Lexeme::Scalar {
        value: "<<"@,
        style: ScalarStyle::Plain,
    })
}

/// The options understand the value: they read each of its scalars as what it is,
/// and take none of its keys for a merge key.
pub open spec fn is_understood(options: ParseOptions, n: Node, floats: Floats) -> bool
    decreases n,
{
    match n {
        Node::Sequence(items) => forall|i: int|
            0 <= i < items.len() ==> is_understood(options, #[trigger] items[i], floats),
        Node::Mapping(entries) => forall|i: int|
            0 <= i < entries.len() ==> {
                &&& is_understood(options, (#[trigger] entries[i]).0, floats)
                &&& is_understood(options, entries[i].1, floats)
                &&& !(options.merge_keys.honored(options.schema) && looks_like_merge(
                    entries[i].0,
                    floats,
                ))
            },
        _ => is_resolved(options, n, floats),
    }
}

/// The options read plain scalars by the core schema, without merge keys. The
/// default options do.
pub open spec fn reads_core(options: ParseOptions) -> bool {
    options.schema == Schema::Core1_2 && !options.merge_keys.honored(options.schema)
}

/// The core schema understands every value that survives.
pub proof fn lemma_core_understands(options: ParseOptions, n: Node, floats: Floats)
    requires
        reads_core(options),
        scan::survives(n, floats),
    ensures
        is_understood(options, n, floats),
    decreases n,
{
    match n {
        Node::Sequence(items) => {
            assert forall|i: int| 0 <= i < items.len() implies is_understood(
                options,
                #[trigger] items[i],
                floats,
            ) by {
                lemma_core_understands(options, items[i], floats);
            }
        },
        Node::Mapping(entries) => {
            assert forall|i: int| 0 <= i < entries.len() implies is_understood(
                options,
                (#[trigger] entries[i]).0,
                floats,
            ) && is_understood(options, entries[i].1, floats) by {
                lemma_core_understands(options, entries[i].0, floats);
                lemma_core_understands(options, entries[i].1, floats);
            }
        },
        _ => {
            lemma_core_scalar(options, n, floats);
        },
    }
}

/// What a composition is told agrees with how the value was written.
pub open spec fn agrees(ctx: Context, n: Node, floats: Floats) -> bool {
    ctx.floats == floats.bits && is_understood(ctx.options, n, floats)
}

/// Events of the kinds `hs` stand at `pos`.
pub open spec fn events_at(evs: Seq<Ev>, pos: int, hs: Seq<Happening>) -> bool {
    &&& 0 <= pos
    &&& pos + hs.len() <= evs.len()
    &&& forall|k: int| 0 <= k < hs.len() ==> evs[pos + k].kind == #[trigger] hs[k]
}

/// Where `a` and then `b` stand.
pub proof fn lemma_events_at(evs: Seq<Ev>, pos: int, a: Seq<Happening>, b: Seq<Happening>)
    requires
        events_at(evs, pos, a + b),
    ensures
        events_at(evs, pos, a),
        events_at(evs, pos + a.len(), b),
{
    assert forall|k: int| 0 <= k < a.len() implies evs[pos + k].kind == #[trigger] a[k] by {
        assert((a + b)[k] == a[k]);
    }
    assert forall|k: int| 0 <= k < b.len() implies evs[pos + a.len() + k].kind
        == #[trigger] b[k] by {
        assert((a + b)[a.len() + k] == b[k]);
    }
}

/// The words of the emitter resolve to what they were written for.
proof fn lemma_words_resolve(float: u64)
    ensures
        scalar::by_core("null"@, float) == Node::Null,
        scalar::by_core("true"@, float) == Node::Bool(true),
        scalar::by_core("false"@, float) == Node::Bool(false),
        scalar::by_core(".inf"@, float) == Node::Float(scalar::INFINITY),
        scalar::by_core("-.inf"@, float) == Node::Float(scalar::NEG_INFINITY),
        scalar::by_core(".nan"@, float) == Node::Float(scalar::NAN),
{
    reveal_strlit("");
    reveal_strlit("~");
    reveal_strlit("null");
    reveal_strlit("Null");
    reveal_strlit("NULL");
    reveal_strlit("true");
    reveal_strlit("True");
    reveal_strlit("TRUE");
    reveal_strlit("false");
    reveal_strlit("False");
    reveal_strlit("FALSE");
    reveal_strlit(".inf");
    reveal_strlit(".Inf");
    reveal_strlit(".INF");
    reveal_strlit("+.inf");
    reveal_strlit("+.Inf");
    reveal_strlit("+.INF");
    reveal_strlit("-.inf");
    reveal_strlit("-.Inf");
    reveal_strlit("-.INF");
    reveal_strlit(".nan");
    assert("true"@[0] == 't');
    assert("false"@[0] == 'f');
    assert(".inf"@[0] == '.');
    assert(".inf"@[1] == 'i');
    assert("-.inf"@[0] == '-');
    assert(".nan"@[0] == '.');
    assert(".nan"@[1] == 'n');
}

/// A scalar that survives is resolved to itself by the core schema.
proof fn lemma_core_scalar(options: ParseOptions, n: Node, floats: Floats)
    requires
        reads_core(options),
        scan::survives(n, floats),
        !(n is Sequence),
        !(n is Mapping),
    ensures
        is_resolved(options, n, floats),
{
    let schema = Schema::Core1_2;
    let value = scan::scalar_lexeme(n, floats.texts)->value;
    let style = scan::scalar_lexeme(n, floats.texts)->style;
    scalar::law_floats_come_from_decimals(value, style, schema, 0, 1);
    scalar::law_floats_come_from_decimals(value, style, schema, 1, 0);
    lemma_words_resolve(0);
    lemma_words_resolve(1);
    match n {
        Node::Int(i) => {
            leaf::lemma_integer(i, 0);
        },
        Node::Float(bits) => {
            if emitter::is_finite(bits) {
                scalar::law_floats_come_from_decimals(value, style, schema, bits, 0);
            }
        },
        _ => {},
    }
}

/// The events of a value are composed to that value, and leave the memory alone.
pub proof fn lemma_compose(
    ctx: Context,
    evs: Seq<Ev>,
    pos: int,
    mem: Memory,
    n: Node,
    floats: Floats,
)
    requires
        agrees(ctx, n, floats),
        scan::survives(n, floats),
        events_at(evs, pos, parse::happenings(n, floats.texts)),
    ensures
        parse::happenings(n, floats.texts).len() > 0,
        model::composed(ctx, evs, pos, mem) == Ok::<(Node, int, Memory), Fault>(
            (n, pos + parse::happenings(n, floats.texts).len(), mem),
        ),
        !(event::kind_at(evs, pos) is None),
        event::kind_at(evs, pos) != Some(Happening::SequenceEnd),
        event::kind_at(evs, pos) != Some(Happening::MappingEnd),
    decreases n, 0int,
{
    let shown = floats.texts;
    let hs = parse::happenings(n, shown);
    match n {
        Node::Sequence(items) => {
            let open = seq![Happening::SequenceStart { anchor: None, tag: None }];
            let body = parse::items_happenings(items, 0, shown) + seq![Happening::SequenceEnd];
            assert(hs == open + body);
            lemma_events_at(evs, pos, open, body);
            assert(evs[pos + 0].kind == open[0]);
            assert(items.take(0) == Seq::<Node>::empty());
            lemma_compose_items(ctx, evs, pos + 1, mem, items, 0, floats);
        },
        Node::Mapping(entries) => {
            let open = seq![Happening::MappingStart { anchor: None, tag: None }];
            let body = parse::entries_happenings(entries, 0, shown) + seq![Happening::MappingEnd];
            assert(hs == open + body);
            lemma_events_at(evs, pos, open, body);
            assert(evs[pos + 0].kind == open[0]);
            assert(entries.take(0) == Seq::<(Node, Node)>::empty());
            lemma_compose_entries(ctx, evs, pos + 1, mem, entries, 0, floats);
        },
        _ => {
            assert(evs[pos + 0].kind == hs[0]);
        },
    }
}

/// The items from `i` on.
proof fn lemma_compose_items(
    ctx: Context,
    evs: Seq<Ev>,
    pos: int,
    mem: Memory,
    items: Seq<Node>,
    i: int,
    floats: Floats,
)
    requires
        0 <= i <= items.len(),
        forall|j: int|
            0 <= j < items.len() ==> agrees(ctx, #[trigger] items[j], floats) && scan::survives(
                items[j],
                floats,
            ),
        events_at(
            evs,
            pos,
            parse::items_happenings(items, i, floats.texts) + seq![Happening::SequenceEnd],
        ),
    ensures
        model::items(ctx, evs, pos, mem, items.take(i)) == Ok::<(Seq<Node>, int, Memory), Fault>(
            (items, pos + parse::items_happenings(items, i, floats.texts).len() + 1, mem),
        ),
    decreases items, items.len() - i,
{
    let shown = floats.texts;
    let end = seq![Happening::SequenceEnd];
    if i == items.len() {
        assert(parse::items_happenings(items, i, shown) + end == end);
        assert(evs[pos + 0].kind == end[0]);
        assert(items.take(i) == items);
    } else {
        let here = parse::happenings(items[i], shown);
        let rest = parse::items_happenings(items, i + 1, shown) + end;
        assert(parse::items_happenings(items, i, shown) + end == here + rest);
        lemma_events_at(evs, pos, here, rest);
        let item = items[i];
        assert(agrees(ctx, item, floats) && scan::survives(item, floats));
        lemma_compose(ctx, evs, pos, mem, item, floats);
        lemma_compose_items(ctx, evs, pos + here.len(), mem, items, i + 1, floats);
        assert(items.take(i).push(item) == items.take(i + 1));
    }
}

/// A key that is not written like a merge key is none.
proof fn lemma_no_merge(ctx: Context, evs: Seq<Ev>, pos: int, key: Node, floats: Floats)
    requires
        events_at(evs, pos, parse::happenings(key, floats.texts)),
        parse::happenings(key, floats.texts).len() > 0,
        !(ctx.options.merge_keys.honored(ctx.options.schema) && looks_like_merge(key, floats)),
    ensures
        !model::is_merge_key(ctx, evs[pos].kind),
{
    let hs = parse::happenings(key, floats.texts);
    assert(evs[pos + 0].kind == hs[0]);
}

/// Setting the next entry of a mapping.
proof fn lemma_next_entry(entries: Seq<(Node, Node)>, i: int)
    requires
        node::distinct_keys(entries),
        0 <= i < entries.len(),
    ensures
        node::put(entries.take(i), entries[i].0, entries[i].1) == entries.take(i + 1),
{
    let had = entries.take(i);
    node::lemma_place_from(had, entries[i].0, 0);
    if let Some(j) = node::place(had, entries[i].0) {
        assert(had[j] == entries[j]);
        assert(entries[j].0 != entries[i].0);
    }
}

/// The entries from `i` on.
#[verifier::rlimit(30)]
#[verifier::spinoff_prover]
proof fn lemma_compose_entries(
    ctx: Context,
    evs: Seq<Ev>,
    pos: int,
    mem: Memory,
    entries: Seq<(Node, Node)>,
    i: int,
    floats: Floats,
)
    requires
        0 <= i <= entries.len(),
        node::distinct_keys(entries),
        forall|j: int|
            0 <= j < entries.len() ==> agrees(ctx, (#[trigger] entries[j]).0, floats) && agrees(
                ctx,
                entries[j].1,
                floats,
            ) && !(ctx.options.merge_keys.honored(ctx.options.schema) && looks_like_merge(
                entries[j].0,
                floats,
            )),
        forall|j: int|
            0 <= j < entries.len() ==> scan::survives((#[trigger] entries[j]).0, floats)
                && scan::survives(entries[j].1, floats),
        events_at(
            evs,
            pos,
            parse::entries_happenings(entries, i, floats.texts) + seq![Happening::MappingEnd],
        ),
    ensures
        model::pairs(ctx, evs, pos, mem, entries.take(i), Seq::empty()) == Ok::<
            (Seq<(Node, Node)>, int, Memory),
            Fault,
        >((entries, pos + parse::entries_happenings(entries, i, floats.texts).len() + 1, mem)),
    decreases entries, entries.len() - i,
{
    let shown = floats.texts;
    let end = seq![Happening::MappingEnd];
    if i == entries.len() {
        assert(parse::entries_happenings(entries, i, shown) + end == end);
        assert(evs[pos + 0].kind == end[0]);
        assert(entries.take(i) == entries);
    } else {
        let entry = entries[i];
        let key = parse::happenings(entry.0, shown);
        let value = parse::happenings(entry.1, shown);
        let rest = parse::entries_happenings(entries, i + 1, shown) + end;
        assert(parse::entries_happenings(entries, i, shown) + end == key + (value + rest));
        lemma_events_at(evs, pos, key, value + rest);
        lemma_events_at(evs, pos + key.len(), value, rest);
        assert(scan::survives(entry.0, floats) && scan::survives(entry.1, floats));
        assert(agrees(ctx, entry.0, floats) && agrees(ctx, entry.1, floats));
        assert(decreases_to!(entries => entry));
        lemma_compose(ctx, evs, pos, mem, entry.0, floats);
        lemma_compose(ctx, evs, pos + key.len(), mem, entry.1, floats);
        lemma_compose_entries(
            ctx,
            evs,
            pos + key.len() + value.len(),
            mem,
            entries,
            i + 1,
            floats,
        );
        lemma_no_merge(ctx, evs, pos, entry.0, floats);
        lemma_next_entry(entries, i);
    }
}

// ---------------------------------------------------------------------------
// Documents
// ---------------------------------------------------------------------------

/// A document whose root is the value.
proof fn lemma_compose_document(
    ctx: Context,
    evs: Seq<Ev>,
    pos: int,
    mem: Memory,
    n: Node,
    floats: Floats,
)
    requires
        agrees(ctx, n, floats),
        scan::survives(n, floats),
        events_at(evs, pos, parse::document_happenings(n, floats.texts)),
    ensures
        model::document(ctx, evs, pos, mem) == Ok::<(Node, int, Memory), Fault>(
            (
                n,
                pos + parse::document_happenings(n, floats.texts).len(),
                Memory { anchors: Map::empty(), ..mem },
            ),
        ),
        event::kind_at(evs, pos) == Some(Happening::DocumentStart),
{
    let hs = parse::happenings(n, floats.texts);
    let end = seq![Happening::DocumentEnd];
    let open = seq![Happening::DocumentStart];
    lemma_events_at(evs, pos, open, hs + end);
    lemma_events_at(evs, pos + 1, hs, end);
    assert(evs[pos + 0].kind == open[0]);
    assert(evs[pos + 1 + hs.len() + 0].kind == end[0]);
    lemma_compose(ctx, evs, pos + 1, Memory { anchors: Map::empty(), ..mem }, n, floats);
}

/// The documents from document `i` on.
proof fn lemma_compose_documents(
    ctx: Context,
    evs: Seq<Ev>,
    pos: int,
    mem: Memory,
    values: Seq<Node>,
    i: int,
    floats: Floats,
)
    requires
        0 <= i <= values.len(),
        forall|j: int|
            0 <= j < values.len() ==> agrees(ctx, #[trigger] values[j], floats) && scan::survives(
                values[j],
                floats,
            ),
        events_at(
            evs,
            pos,
            parse::stream_happenings(values, i, floats.texts) + seq![Happening::StreamEnd],
        ),
    ensures
        model::documents(ctx, evs, pos, mem, values.take(i)) == Ok::<Seq<Node>, Fault>(values),
    decreases values.len() - i,
{
    let shown = floats.texts;
    let end = seq![Happening::StreamEnd];
    if i == values.len() {
        assert(parse::stream_happenings(values, i, shown) + end == end);
        assert(evs[pos + 0].kind == end[0]);
        assert(values.take(i) == values);
    } else {
        let n = values[i];
        let here = parse::document_happenings(n, shown);
        let rest = parse::stream_happenings(values, i + 1, shown) + end;
        assert(parse::stream_happenings(values, i, shown) + end == here + rest);
        lemma_events_at(evs, pos, here, rest);
        assert(agrees(ctx, n, floats) && scan::survives(n, floats));
        lemma_compose_document(ctx, evs, pos, mem, n, floats);
        let after = Memory { anchors: Map::empty(), ..mem };
        lemma_compose_documents(ctx, evs, pos + here.len(), after, values, i + 1, floats);
        assert(values.take(i).push(n) == values.take(i + 1));
    }
}

/// A whole stream of documents.
pub proof fn lemma_compose_stream(ctx: Context, evs: Seq<Ev>, values: Seq<Node>, floats: Floats)
    requires
        forall|j: int|
            0 <= j < values.len() ==> agrees(ctx, #[trigger] values[j], floats) && scan::survives(
                values[j],
                floats,
            ),
        parse::kinds(evs) == seq![Happening::StreamStart] + (parse::stream_happenings(
            values,
            0,
            floats.texts,
        ) + seq![Happening::StreamEnd]),
    ensures
        model::stream(ctx, evs) == Ok::<Seq<Node>, Fault>(values),
{
    let body = parse::stream_happenings(values, 0, floats.texts) + seq![Happening::StreamEnd];
    let all = seq![Happening::StreamStart] + body;
    assert forall|k: int| 0 <= k < all.len() implies evs[0 + k].kind == #[trigger] all[k] by {
        assert(parse::kinds(evs)[k] == all[k]);
    }
    assert(evs.len() == parse::kinds(evs).len());
    lemma_events_at(evs, 0, seq![Happening::StreamStart], body);
    assert(evs[0].kind == all[0]);
    assert(values.take(0) == Seq::<Node>::empty());
    lemma_compose_documents(
        ctx,
        evs,
        1,
        Memory { anchors: Map::empty(), copied: 0 },
        values,
        0,
        floats,
    );
}

} // verus!
