//! The composer: events to owned value documents.

pub mod laws;
pub mod meaning;
pub mod model;

use crate::composer::model::{Context, Memory};
use crate::error::{Error, ErrorKind, Fault, Span};
use crate::event;
use crate::event::{Event, EventKind};
use crate::floats::FloatTable;
use crate::meta::ScalarStyle;
use crate::node;
use crate::node::Node;
use crate::options::ParseOptions;
use crate::scalar::is_float_scalar;
use crate::text::same_text;
use crate::value;
use crate::value::{Mapping, Value, ValueData};
use crate::text;
use vstd::hash_map::StringHashMap;
use vstd::prelude::*;

verus! {

/// Composes an event stream into one value per document. `floats` tells which
/// numbers the decimal texts of the stream write. No metadata is attached to the values.
pub fn compose(events: &[Event], options: &ParseOptions, floats: &FloatTable) -> (res: Result<
    Vec<Value>,
    Error,
>)
    ensures
        match model::stream(
            (Context { options: *options, floats: floats@.bits }),
            event::evs(events@),
        ) {
            Ok(nodes) => res matches Ok(v) && value::nodes(v@) == nodes && value::are_all_bare(v@),
            Err(f) => res matches Err(e) && e@ == f,
        },
{
    let mut composer = Composer {
        events,
        pos: 0,
        options,
        floats,
        anchors: StringHashMap::new(),
        copied: 0,
    };
    assert(composer.mem().anchors == Map::<Seq<char>, Node>::empty());
    composer.compose_stream()
}

/// The texts of a list of strings.
pub open spec fn texts_of(strings: Seq<String>) -> Seq<Seq<char>> {
    Seq::new(strings.len(), |i: int| strings[i]@)
}

/// The decimal texts of a stream, in order: what a [`FloatTable`] has to know
/// before [`compose`] reads the stream.
pub fn float_texts(events: &[Event], options: &ParseOptions) -> (texts: Vec<String>)
    ensures
        texts_of(texts@) == model::float_texts(*options, event::evs(events@), 0),
{
    let ghost evs = event::evs(events@);
    let mut texts: Vec<String> = Vec::new();
    let mut i: usize = 0;
    assert(texts_of(texts@) + model::float_texts(*options, evs, 0) == model::float_texts(
        *options,
        evs,
        0,
    ));
    while i < events.len()
        invariant
            i <= events.len(),
            evs == event::evs(events@),
            texts_of(texts@) + model::float_texts(*options, evs, i as int) == model::float_texts(
                *options,
                evs,
                0,
            ),
        decreases events.len() - i,
    {
        let ghost had = texts_of(texts@);
        let ghost rest = model::float_texts(*options, evs, i + 1);
        if let EventKind::Scalar { value, style, .. } = &events[i].kind {
            if is_float_scalar(value.as_str(), *style, options.schema) {
                texts.push(value.clone());
                proof {
                    assert(texts_of(texts@) == had.push(value@));
                    assert(had.push(value@) + rest == had + (seq![value@] + rest));
                }
            }
        }
        i += 1;
    }
    assert(texts_of(texts@) + model::float_texts(*options, evs, i as int) == texts_of(texts@));
    texts
}

// ---------------------------------------------------------------------------
// Counting
// ---------------------------------------------------------------------------

/// `n`, or the largest machine number where `n` is beyond it.
spec fn capped(n: nat) -> u128 {
    if n <= u128::MAX {
        n as u128
    } else {
        u128::MAX
    }
}

/// Counts the nodes of a value.
fn count_nodes(v: &Value) -> (n: u128)
    ensures
        n == capped(model::node_count(v@)),
    decreases v@,
{
    match v.data() {
        ValueData::Sequence(items) => {
            let mut n: u128 = 1;
            let mut i: usize = 0;
            proof {
                value::lemma_sequence(*items);
            }
            while i < items.len()
                invariant
                    i <= items.len(),
                    v@ == Node::Sequence(value::nodes(items@)),
                    ({
                        let rest = model::items_count(value::nodes(items@), i as int);
                        let total = model::node_count(v@);
                        rest < total && n == capped((total - rest) as nat)
                    }),
                decreases items.len() - i,
            {
                proof {
                    value::lemma_item_smaller(v@, i as int);
                }
                n = n.saturating_add(count_nodes(&items[i]));
                i += 1;
            }
            n
        },
        ValueData::Mapping(m) => {
            let pairs = m.iter();
            let mut n: u128 = 1;
            let mut i: usize = 0;
            while i < pairs.len()
                invariant
                    i <= pairs.len(),
                    v@ == Node::Mapping(m@),
                    value::reads(pairs@, m@),
                    ({
                        let rest = model::entries_count(m@, i as int);
                        let total = model::node_count(v@);
                        rest < total && n == capped((total - rest) as nat)
                    }),
                decreases pairs.len() - i,
            {
                proof {
                    value::lemma_entries_smaller(v@);
                    value::lemma_entry_smaller(m@, i as int);
                    assert(m@[i as int] == (pairs@[i as int].0@, pairs@[i as int].1@));
                }
                n = n.saturating_add(count_nodes(pairs[i].0));
                n = n.saturating_add(count_nodes(pairs[i].1));
                i += 1;
            }
            n
        },
        _ => 1,
    }
}

// ---------------------------------------------------------------------------
// Merging
// ---------------------------------------------------------------------------

/// The readings of a list of mappings.
spec fn sources_of(mappings: Seq<Mapping>) -> Seq<Seq<(Node, Node)>> {
    Seq::new(mappings.len(), |i: int| mappings[i]@)
}

/// Adds to `map` the entries of `source` whose keys it lacks.
fn fill(map: &mut Mapping, source: &Mapping)
    ensures
        final(map)@ == model::filled(old(map)@, source@, 0),
        value::are_bare(*old(map)) && value::are_bare(*source)
            ==> value::are_bare(*final(map)),
{
    let pairs = source.iter();
    let mut i: usize = 0;
    while i < pairs.len()
        invariant
            i <= pairs.len(),
            value::reads(pairs@, source@),
            model::filled(map@, source@, i as int) == model::filled(old(map)@, source@, 0),
            value::marks_of(*source) == Seq::new(
                pairs@.len(),
                |i: int| (value::value_marks(*pairs@[i].0), value::value_marks(*pairs@[i].1)),
            ),
            value::are_bare(*old(map)) && value::are_bare(*source)
                ==> value::are_bare(*map),
        decreases pairs.len() - i,
    {
        assert(source@[i as int] == (pairs@[i as int].0@, pairs@[i as int].1@));
        assert(value::marks_of(*source)[i as int] == (
            value::value_marks(*pairs@[i as int].0),
            value::value_marks(*pairs@[i as int].1),
        ));
        proof {
            value::lemma_put_bare(map@, pairs@[i as int].0@, pairs@[i as int].1@);
        }
        if !map.contains_key(pairs[i].0) {
            map.insert(pairs[i].0.clone(), pairs[i].1.clone());
        }
        i += 1;
    }
}

/// No metadata is attached to what the mappings hold.
spec fn are_bare_sources(mappings: Seq<Mapping>) -> bool {
    forall|i: int|
        0 <= i < mappings.len() ==> value::are_bare(#[trigger] mappings[i])
}

/// The mappings that the value of a merge key names, if it names mappings only.
fn take_sources(v: Value) -> (r: Option<Vec<Mapping>>)
    requires
        value::is_bare(v),
    ensures
        r matches Some(m) ==> are_bare_sources(m@),
        match model::merge_sources(v@) {
            Some(sources) => r matches Some(m) && sources_of(m@) == sources,
            None => r is None,
        },
{
    let ghost n = v@;
    let ghost notes = v.notes();
    match v.into_data() {
        ValueData::Mapping(m) => {
            proof {
                value::lemma_bare_parts(ValueData::Mapping(m), notes);
            }
            let mut sources: Vec<Mapping> = Vec::new();
            sources.push(m);
            assert(sources_of(sources@) == seq![m@]);
            Some(sources)
        },
        ValueData::Sequence(items) => {
            proof {
                value::lemma_sequence(items);
                value::lemma_bare_parts(ValueData::Sequence(items), notes);
            }
            let ghost nodes = value::nodes(items@);
            let mut sources: Vec<Mapping> = Vec::new();
            let mut i: usize = 0;
            while i < items.len()
                invariant
                    i <= items.len(),
                    nodes == value::nodes(items@),
                    n == Node::Sequence(nodes),
                    n == v@,
                    sources@.len() == i,
                    value::are_all_bare(items@),
                    are_bare_sources(sources@),
                    forall|j: int| 0 <= j < i ==> #[trigger] nodes[j] is Mapping,
                    forall|j: int| 0 <= j < i ==> (#[trigger] sources@[j])@ == nodes[j]->Mapping_0,
                decreases items.len() - i,
            {
                match items[i].data() {
                    ValueData::Mapping(m) => {
                        assert(nodes[i as int] == Node::Mapping(m@));
                        proof {
                            assert(value::is_bare(items@[i as int]));
                            value::lemma_bare_parts(
                                items@[i as int].payload(),
                                items@[i as int].notes(),
                            );
                        }
                        sources.push(m.clone());
                    },
                    _ => {
                        assert(!(nodes[i as int] is Mapping));
                        assert(n->Sequence_0[i as int] == nodes[i as int]);
                        return None;
                    },
                }
                i += 1;
            }
            proof {
                assert(sources_of(sources@) == Seq::new(
                    nodes.len(),
                    |j: int| nodes[j]->Mapping_0,
                ));
            }
            Some(sources)
        },
        _ => None,
    }
}

// ---------------------------------------------------------------------------
// The composer
// ---------------------------------------------------------------------------

/// A cursor over events, with what the composition has to remember.
struct Composer<'a> {
    events: &'a [Event],
    pos: usize,
    options: &'a ParseOptions,
    floats: &'a FloatTable,
    /// Anchor name to composed value, valid within the current document.
    anchors: StringHashMap<Value>,
    /// Running count of the nodes that aliases have copied.
    copied: u128,
}

/// The outcome of a step from `before` to `after` is what `expected` says.
spec fn did(
    before: &Composer,
    after: &Composer,
    res: Result<Value, Error>,
    expected: Result<(Node, int, Memory), Fault>,
) -> bool {
    &&& after.wf()
    &&& after.same_source(before)
    &&& match expected {
        Ok((n, at, mem)) => {
            &&& res matches Ok(v)
            &&& v@ == n
            &&& value::is_bare(v)
            &&& after.pos == at
            &&& before.pos < after.pos
            &&& after.mem() == mem
        },
        Err(f) => res matches Err(e) && e@ == f,
    }
}

impl<'a> Composer<'a> {
    spec fn evs(&self) -> Seq<event::Ev> {
        event::evs(self.events@)
    }

    spec fn ctx(&self) -> Context {
        Context { options: *self.options, floats: self.floats@.bits }
    }

    spec fn mem(&self) -> Memory {
        Memory { anchors: self.anchors@.map_values(|v: Value| v@), copied: self.copied as nat }
    }

    spec fn wf(&self) -> bool {
        &&& self.pos <= self.events.len()
        &&& self.copied <= usize::MAX
        &&& forall|name: Seq<char>| #[trigger]
            self.anchors@.contains_key(name) ==> value::is_bare(self.anchors@[name])
    }

    spec fn same_source(&self, other: &Composer) -> bool {
        &&& self.events == other.events
        &&& self.options == other.options
        &&& self.floats == other.floats
    }

    fn truncated(&self) -> (e: Error)
        ensures
            e@ == model::truncated(),
    {
        Error::new(ErrorKind::Compose, "unexpected end of event stream")
    }

    /// The error of finding `kind` in place of what `message` says.
    fn misplaced(&self, message: &str, kind: &EventKind) -> (e: Error)
        ensures
            e@ == model::compose_fault(message@ + event::event_words(kind@)),
    {
        let mut text = message.to_string();
        text.append(kind.in_words().as_str());
        Error::new(ErrorKind::Compose, text.as_str())
    }

    /// Remembers a value under its anchor, if it has one.
    fn remember(&mut self, anchor: &Option<String>, v: &Value)
        requires
            old(self).wf(),
            value::is_bare(*v),
        ensures
            final(self).wf(),
            final(self).same_source(old(self)),
            final(self).pos == old(self).pos,
            final(self).mem() == model::anchored(
                old(self).mem(),
                text::optional_text(*anchor),
                v@,
            ),
    {
        if let Some(name) = anchor {
            self.anchors.insert(name.clone(), v.clone());
        }
        assert(self.mem() == model::anchored(
            old(self).mem(),
            text::optional_text(*anchor),
            v@,
        ));
    }

    /// The value that an alias stands for.
    fn expand_alias(&mut self, name: &str, span: Span) -> (res: Result<Value, Error>)
        requires
            old(self).wf(),
        ensures
            final(self).wf(),
            final(self).same_source(old(self)),
            final(self).pos == old(self).pos,
            match model::alias(
                old(self).mem(),
                name@,
                span,
                old(self).ctx().options.limits.max_aliases as nat,
            ) {
                Ok((n, mem)) => {
                    &&& res matches Ok(v)
                    &&& v@ == n
                    &&& value::is_bare(v)
                    &&& final(self).mem() == mem
                },
                Err(f) => res matches Err(e) && e@ == f,
            },
    {
        match self.anchors.get(name) {
            None => {
                let mut message = "undefined alias '".to_string();
                message.append(name);
                message.append("'");
                Err(Error::at(ErrorKind::Compose, message.as_str(), span))
            },
            Some(v) => {
                let total: u128 = self.copied.saturating_add(count_nodes(v));
                if total > self.options.limits.max_aliases as u128 {
                    return Err(
                        Error::at(
                            ErrorKind::LimitExceeded,
                            "maximum alias expansion exceeded",
                            span,
                        ),
                    );
                }
                let copy = v.clone();
                self.copied = total;
                Ok(copy)
            },
        }
    }

    /// Resolves a scalar into a typed value.
    fn resolve_scalar(&self, raw: &str, style: ScalarStyle, span: Span) -> (res: Result<
        Value,
        Error,
    >)
        ensures
            match model::scalar_node(self.ctx(), raw@, style, span) {
                Ok(n) => res matches Ok(v) && v@ == n && value::is_bare(v),
                Err(f) => res matches Err(e) && e@ == f,
            },
    {
        let schema = self.options.schema;
        if !is_float_scalar(raw, style, schema) {
            return Ok(Value::from_scalar(raw, style, schema, 0));
        }
        match self.floats.bits_of(raw) {
            Some(bits) => Ok(Value::from_scalar(raw, style, schema, bits)),
            None => {
                let mut message = "the value of the float '".to_string();
                message.append(raw);
                message.append("' is not known");
                Err(Error::at(ErrorKind::Compose, message.as_str(), span))
            },
        }
    }

    /// Whether an event is a `<<` key that asks for a merge.
    fn merge_key(&self, kind: &EventKind) -> (b: bool)
        ensures
            b == model::is_merge_key(self.ctx(), kind@),
    {
        self.options.merge_keys.enabled_for(self.options.schema) && match kind {
            EventKind::Scalar { value, style, anchor, tag } => same_text(value.as_str(), "<<")
                && *style == ScalarStyle::Plain && anchor.is_none() && tag.is_none(),
            _ => false,
        }
    }

    fn compose_node(&mut self) -> (res: Result<Value, Error>)
        requires
            old(self).wf(),
        ensures
            did(
                old(self),
                final(self),
                res,
                model::composed(old(self).ctx(), old(self).evs(), old(self).pos as int, old(self).mem()),
            ),
        decreases old(self).events.len() - old(self).pos, 0int,
    {
        if self.pos >= self.events.len() {
            return Err(self.truncated());
        }
        let event = &self.events[self.pos];
        let span = event.span;
        self.pos = self.pos + 1;
        match &event.kind {
            EventKind::Scalar { value, style, anchor, .. } => {
                match self.resolve_scalar(value.as_str(), *style, span) {
                    Err(e) => Err(e),
                    Ok(v) => {
                        self.remember(anchor, &v);
                        Ok(v)
                    },
                }
            },
            EventKind::Alias(name) => self.expand_alias(name.as_str(), span),
            EventKind::SequenceStart { anchor, .. } => {
                match self.compose_items() {
                    Err(e) => Err(e),
                    Ok(items) => {
                        proof {
                            value::lemma_bare_sequence(items@);
                        }
                        let v = Value::sequence(items);
                        self.remember(anchor, &v);
                        Ok(v)
                    },
                }
            },
            EventKind::MappingStart { anchor, .. } => {
                match self.compose_pairs() {
                    Err(e) => Err(e),
                    Ok(map) => {
                        proof {
                            value::lemma_bare_mapping(map);
                        }
                        let v = Value::mapping(map);
                        self.remember(anchor, &v);
                        Ok(v)
                    },
                }
            },
            other => Err(self.misplaced("unexpected event while composing a node: ", other)),
        }
    }

    /// Composes the items of a sequence up to its end.
    fn compose_items(&mut self) -> (res: Result<Vec<Value>, Error>)
        requires
            old(self).wf(),
        ensures
            final(self).wf(),
            final(self).same_source(old(self)),
            match model::items(
                old(self).ctx(),
                old(self).evs(),
                old(self).pos as int,
                old(self).mem(),
                Seq::empty(),
            ) {
                Ok((nodes, at, mem)) => {
                    &&& res matches Ok(items)
                    &&& value::nodes(items@) == nodes
                    &&& value::are_all_bare(items@)
                    &&& final(self).pos == at
                    &&& old(self).pos < final(self).pos
                    &&& final(self).mem() == mem
                },
                Err(f) => res matches Err(e) && e@ == f,
            },
        decreases old(self).events.len() - old(self).pos, 1int,
    {
        let ghost ctx = self.ctx();
        let ghost evs = self.evs();
        let mut items: Vec<Value> = Vec::new();
        assert(value::nodes(items@) == Seq::<Node>::empty());
        loop
            invariant
                self.wf(),
                self.same_source(old(self)),
                ctx == self.ctx(),
                evs == self.evs(),
                old(self).pos <= self.pos,
                value::are_all_bare(items@),
                model::items(ctx, evs, self.pos as int, self.mem(), value::nodes(items@))
                    == model::items(
                    ctx,
                    evs,
                    old(self).pos as int,
                    old(self).mem(),
                    Seq::empty(),
                ),
            decreases self.events.len() - self.pos,
        {
            if self.pos >= self.events.len() {
                return Err(
                    Error::new(ErrorKind::Compose, "unterminated sequence in event stream"),
                );
            }
            if matches!(&self.events[self.pos].kind, EventKind::SequenceEnd) {
                self.pos = self.pos + 1;
                return Ok(items);
            }
            let ghost had = value::nodes(items@);
            match self.compose_node() {
                Err(e) => {
                    return Err(e);
                },
                Ok(v) => {
                    items.push(v);
                    assert(value::nodes(items@) == had.push(v@));
                },
            }
        }
    }

    /// Composes the entries of a mapping up to its end.
    fn compose_pairs(&mut self) -> (res: Result<Mapping, Error>)
        requires
            old(self).wf(),
        ensures
            final(self).wf(),
            final(self).same_source(old(self)),
            match model::pairs(
                old(self).ctx(),
                old(self).evs(),
                old(self).pos as int,
                old(self).mem(),
                Seq::empty(),
                Seq::empty(),
            ) {
                Ok((entries, at, mem)) => {
                    &&& res matches Ok(map)
                    &&& map@ == entries
                    &&& value::are_bare(map)
                    &&& final(self).pos == at
                    &&& old(self).pos < final(self).pos
                    &&& final(self).mem() == mem
                },
                Err(f) => res matches Err(e) && e@ == f,
            },
        decreases old(self).events.len() - old(self).pos, 1int,
    {
        let ghost ctx = self.ctx();
        let ghost evs = self.evs();
        let mut map = Mapping::new();
        assert(value::marks_of(map) == value::unmarked_entries(map@));
        let mut sources: Vec<Mapping> = Vec::new();
        assert(sources_of(sources@) == Seq::<Seq<(Node, Node)>>::empty());
        loop
            invariant
                self.wf(),
                self.same_source(old(self)),
                ctx == self.ctx(),
                evs == self.evs(),
                old(self).pos <= self.pos,
                value::are_bare(map),
                are_bare_sources(sources@),
                model::pairs(
                    ctx,
                    evs,
                    self.pos as int,
                    self.mem(),
                    map@,
                    sources_of(sources@),
                ) == model::pairs(
                    ctx,
                    evs,
                    old(self).pos as int,
                    old(self).mem(),
                    Seq::empty(),
                    Seq::empty(),
                ),
            decreases self.events.len() - self.pos,
        {
            if self.pos >= self.events.len() {
                return Err(
                    Error::new(ErrorKind::Compose, "unterminated mapping in event stream"),
                );
            }
            let event = &self.events[self.pos];
            if matches!(&event.kind, EventKind::MappingEnd) {
                self.pos = self.pos + 1;
                merge(&mut map, &sources);
                return Ok(map);
            }
            let key = match self.compose_node() {
                Err(e) => {
                    return Err(e);
                },
                Ok(v) => v,
            };
            let v = match self.compose_node() {
                Err(e) => {
                    return Err(e);
                },
                Ok(v) => v,
            };
            if self.merge_key(&event.kind) {
                match take_sources(v) {
                    None => {
                        return Err(
                            Error::at(
                                ErrorKind::Compose,
                                "a merge key takes a mapping or a sequence of mappings",
                                event.span,
                            ),
                        );
                    },
                    Some(more) => {
                        let ghost had = sources_of(sources@);
                        let ghost added = sources_of(more@);
                        let mut more = more;
                        sources.append(&mut more);
                        assert(sources_of(sources@) == had + added);
                    },
                }
            } else {
                proof {
                    value::lemma_put_bare(map@, key@, v@);
                }
                map.insert(key, v);
            }
        }
    }

    fn compose_document(&mut self) -> (res: Result<Value, Error>)
        requires
            old(self).wf(),
            old(self).pos < old(self).events.len(),
        ensures
            did(
                old(self),
                final(self),
                res,
                model::document(old(self).ctx(), old(self).evs(), old(self).pos as int, old(self).mem()),
            ),
    {
        self.anchors.clear();
        self.pos = self.pos + 1;
        assert(self.mem() == (Memory { anchors: Map::empty(), ..old(self).mem() }));
        match self.compose_node() {
            Err(e) => Err(e),
            Ok(v) => {
                if self.pos >= self.events.len() {
                    return Err(self.truncated());
                }
                let event = &self.events[self.pos];
                self.pos = self.pos + 1;
                match &event.kind {
                    EventKind::DocumentEnd => Ok(v),
                    other => Err(self.misplaced("expected document end, found ", other)),
                }
            },
        }
    }

    fn compose_stream(&mut self) -> (res: Result<Vec<Value>, Error>)
        requires
            old(self).wf(),
            old(self).pos == 0,
            old(self).mem() == (Memory { anchors: Map::empty(), copied: 0 }),
        ensures
            match model::stream(old(self).ctx(), old(self).evs()) {
                Ok(nodes) => res matches Ok(v) && value::nodes(v@) == nodes
                    && value::are_all_bare(v@),
                Err(f) => res matches Err(e) && e@ == f,
            },
    {
        if self.events.len() == 0 {
            return Err(self.truncated());
        }
        match &self.events[0].kind {
            EventKind::StreamStart => {},
            other => {
                return Err(self.misplaced("expected stream start, found ", other));
            },
        }
        let ghost ctx = self.ctx();
        let ghost evs = self.evs();
        self.pos = 1;
        let mut documents: Vec<Value> = Vec::new();
        assert(value::nodes(documents@) == Seq::<Node>::empty());
        loop
            invariant
                self.wf(),
                self.same_source(old(self)),
                ctx == self.ctx(),
                evs == self.evs(),
                value::are_all_bare(documents@),
                model::documents(ctx, evs, self.pos as int, self.mem(), value::nodes(documents@))
                    == model::stream(old(self).ctx(), old(self).evs()),
            decreases self.events.len() - self.pos,
        {
            if self.pos >= self.events.len() {
                return Ok(documents);
            }
            let event = &self.events[self.pos];
            match &event.kind {
                EventKind::StreamEnd => {
                    return Ok(documents);
                },
                EventKind::DocumentStart => {
                    let ghost had = value::nodes(documents@);
                    match self.compose_document() {
                        Err(e) => {
                            return Err(e);
                        },
                        Ok(v) => {
                            documents.push(v);
                            assert(value::nodes(documents@) == had.push(v@));
                        },
                    }
                },
                other => {
                    return Err(
                        self.misplaced("expected document or stream end, found ", other).with_span(
                            event.span,
                        ),
                    );
                },
            }
        }
    }
}

/// Fills `map` up from each of the sources in turn.
fn merge(map: &mut Mapping, sources: &Vec<Mapping>)
    requires
        value::are_bare(*old(map)),
        are_bare_sources(sources@),
    ensures
        value::are_bare(*final(map)),
        final(map)@ == model::merged(old(map)@, sources_of(sources@), 0),
{
    let mut i: usize = 0;
    while i < sources.len()
        invariant
            i <= sources.len(),
            value::are_bare(*map),
            are_bare_sources(sources@),
            model::merged(map@, sources_of(sources@), i as int) == model::merged(
                old(map)@,
                sources_of(sources@),
                0,
            ),
        decreases sources.len() - i,
    {
        fill(map, &sources[i]);
        i += 1;
    }
}

} // verus!
