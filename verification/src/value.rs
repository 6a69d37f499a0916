//! The owned, unified YAML value tree.

use crate::meta::{Meta, Notes, ScalarStyle};
use crate::node;
use crate::node::Node;
use crate::options::Schema;
use crate::scalar;
use crate::text::chars_of;
use core::cmp::Ordering;
use core::hash::{Hash, Hasher};
use indexmap::IndexMap;
use vstd::prelude::*;
use vstd::std_specs::cmp::{PartialEqSpecImpl, PartialOrdSpecImpl};
use vstd::std_specs::convert::FromSpecImpl;

verus! {

/// The data payload of a node, without metadata. A float is held by its bits.
#[derive(Debug)]
pub enum ValueData {
    Null,
    Bool(bool),
    Int(i64),
    Float(u64),
    String(String),
    Sequence(Vec<Value>),
    Mapping(Mapping),
}

/// A YAML node: data plus optional, lazily-allocated formatting metadata.
#[derive(Debug)]
pub struct Value {
    data: ValueData,
    meta: Option<Box<Meta>>,
}

/// An insertion-ordered YAML mapping. Key order is always preserved.
///
/// Equality and ordering are insertion-order-sensitive by design: two mappings
/// with the same entries in a different key order are distinct.
#[verifier::external_body]
#[derive(Debug)]
pub struct Mapping {
    entries: IndexMap<Value, Value>,
}

/// The entries that an `IndexMap` of values holds, in its order.
pub uninterp spec fn entries_of(m: Mapping) -> Seq<(Node, Node)>;

/// The metadata of the keys and values that an `IndexMap` of values holds, in its
/// order.
pub uninterp spec fn marks_of(m: Mapping) -> Seq<(Marks, Marks)>;

// ---------------------------------------------------------------------------
// Views
// ---------------------------------------------------------------------------

/// The reading of a payload.
pub open spec fn data_node(d: ValueData) -> Node
    decreases d,
{
    match d {
        ValueData::Null => Node::Null,
        ValueData::Bool(b) => Node::Bool(b),
        ValueData::Int(i) => Node::Int(i),
        ValueData::Float(bits) => Node::Float(bits),
        ValueData::String(s) => Node::Str(s@),
        ValueData::Sequence(items) => Node::Sequence(
            Seq::new(
                items@.len(),
                |i: int|
                    if 0 <= i < items@.len() {
                        node_of(items@[i])
                    } else {
                        Node::Null
                    },
            ),
        ),
        ValueData::Mapping(m) => Node::Mapping(entries_of(m)),
    }
}

/// The reading of a value: its data without its metadata.
pub closed spec fn node_of(v: Value) -> Node
    decreases v,
{
    data_node(v.data)
}

/// The readings of a sequence of values.
pub open spec fn nodes(items: Seq<Value>) -> Seq<Node> {
    Seq::new(items.len(), |i: int| node_of(items[i]))
}

impl View for Value {
    type V = Node;

    open spec fn view(&self) -> Node {
        node_of(*self)
    }
}

impl View for Mapping {
    type V = Seq<(Node, Node)>;

    open spec fn view(&self) -> Seq<(Node, Node)> {
        entries_of(*self)
    }
}

/// The metadata of a value and of all its parts.
pub enum Marks {
    Scalar(Option<Notes>),
    Sequence(Option<Notes>, Seq<Marks>),
    Mapping(Option<Notes>, Seq<(Marks, Marks)>),
}

/// The metadata of a payload that has the metadata `notes`.
pub open spec fn data_marks(d: ValueData, notes: Option<Notes>) -> Marks
    decreases d,
{
    match d {
        ValueData::Sequence(items) => Marks::Sequence(
            notes,
            Seq::new(
                items@.len(),
                |i: int|
                    if 0 <= i < items@.len() {
                        value_marks(items@[i])
                    } else {
                        Marks::Scalar(None)
                    },
            ),
        ),
        ValueData::Mapping(m) => Marks::Mapping(notes, marks_of(m)),
        _ => Marks::Scalar(notes),
    }
}

/// The metadata of a value and of all its parts.
pub closed spec fn value_marks(v: Value) -> Marks
    decreases v,
{
    data_marks(v.data, v.notes())
}

/// The metadata of a sequence of values.
pub open spec fn all_marks(items: Seq<Value>) -> Seq<Marks> {
    Seq::new(items.len(), |i: int| value_marks(items[i]))
}

/// The metadata of a value that has none, neither itself nor in any of its parts.
pub open spec fn unmarked(n: Node) -> Marks
    decreases n,
{
    match n {
        Node::Sequence(items) => Marks::Sequence(
            None,
            Seq::new(
                items.len(),
                |i: int|
                    if 0 <= i < items.len() {
                        unmarked(items[i])
                    } else {
                        Marks::Scalar(None)
                    },
            ),
        ),
        Node::Mapping(entries) => Marks::Mapping(
            None,
            Seq::new(
                entries.len(),
                |i: int|
                    if 0 <= i < entries.len() {
                        (unmarked(entries[i].0), unmarked(entries[i].1))
                    } else {
                        (Marks::Scalar(None), Marks::Scalar(None))
                    },
            ),
        ),
        _ => Marks::Scalar(None),
    }
}

/// The metadata of entries that have none.
pub open spec fn unmarked_entries(entries: Seq<(Node, Node)>) -> Seq<(Marks, Marks)> {
    Seq::new(entries.len(), |i: int| (unmarked(entries[i].0), unmarked(entries[i].1)))
}

/// No metadata is attached, neither to the value nor to any of its parts.
pub open spec fn is_bare(v: Value) -> bool {
    value_marks(v) == unmarked(v@)
}

/// No metadata is attached to any of the values, nor to their parts.
pub open spec fn are_all_bare(items: Seq<Value>) -> bool {
    forall|i: int| 0 <= i < items.len() ==> is_bare(#[trigger] items[i])
}

/// No metadata is attached to any of the keys and values, nor to their parts.
pub open spec fn are_bare(m: Mapping) -> bool {
    marks_of(m) == unmarked_entries(m@)
}

/// The metadata of entries after the value of `key` is set: a key that is there keeps
/// its place and its own metadata, a new one goes last.
pub open spec fn put_marks(
    entries: Seq<(Node, Node)>,
    marks: Seq<(Marks, Marks)>,
    key: Node,
    added: (Marks, Marks),
) -> Seq<(Marks, Marks)> {
    match node::place(entries, key) {
        Some(i) => marks.update(i, (marks[i].0, added.1)),
        None => marks.push(added),
    }
}

/// The metadata of a sequence payload.
pub proof fn lemma_sequence_marks(items: Vec<Value>, notes: Option<Notes>)
    ensures
        data_marks(ValueData::Sequence(items), notes) == Marks::Sequence(notes, all_marks(items@)),
{
    assert(data_marks(ValueData::Sequence(items), notes)->Sequence_1 == all_marks(items@));
}

/// What has no metadata, of a sequence and of a mapping.
proof fn lemma_unmarked(items: Seq<Node>, entries: Seq<(Node, Node)>)
    ensures
        unmarked(Node::Sequence(items)) == Marks::Sequence(
            None,
            Seq::new(items.len(), |i: int| unmarked(items[i])),
        ),
        unmarked(Node::Mapping(entries)) == Marks::Mapping(None, unmarked_entries(entries)),
{
    assert(unmarked(Node::Sequence(items))->Sequence_1 == Seq::new(
        items.len(),
        |i: int| unmarked(items[i]),
    ));
    assert(unmarked(Node::Mapping(entries))->Mapping_1 == unmarked_entries(entries));
}

/// A sequence has no metadata if its items have none.
pub proof fn lemma_bare_sequence(items: Seq<Value>)
    requires
        are_all_bare(items),
    ensures
        Marks::Sequence(None, all_marks(items)) == unmarked(Node::Sequence(nodes(items))),
{
    lemma_unmarked(nodes(items), Seq::empty());
    assert(all_marks(items) == Seq::new(items.len(), |i: int| unmarked(nodes(items)[i])));
}

/// A mapping has no metadata if its entries have none.
pub proof fn lemma_bare_mapping(m: Mapping)
    requires
        are_bare(m),
    ensures
        Marks::Mapping(None, marks_of(m)) == unmarked(Node::Mapping(m@)),
{
    lemma_unmarked(Seq::empty(), m@);
}

/// A payload without metadata has parts without metadata.
pub proof fn lemma_bare_parts(d: ValueData, notes: Option<Notes>)
    requires
        data_marks(d, notes) == unmarked(data_node(d)),
    ensures
        d matches ValueData::Sequence(items) ==> are_all_bare(items@),
        d matches ValueData::Mapping(m) ==> are_bare(m),
{
    match d {
        ValueData::Sequence(items) => {
            lemma_sequence(items);
            lemma_sequence_marks(items, notes);
            let parts = nodes(items@);
            lemma_unmarked(parts, Seq::empty());
            let none = Seq::new(parts.len(), |i: int| unmarked(parts[i]));
            assert(all_marks(items@) == none);
            assert forall|i: int| 0 <= i < items@.len() implies is_bare(#[trigger] items@[i]) by {
                assert(all_marks(items@)[i] == none[i]);
            }
        },
        ValueData::Mapping(m) => {
            lemma_unmarked(Seq::empty(), m@);
        },
        _ => {},
    }
}

/// Entries without metadata stay so when one more is set.
pub proof fn lemma_put_bare(entries: Seq<(Node, Node)>, key: Node, value: Node)
    ensures
        put_marks(
            entries,
            unmarked_entries(entries),
            key,
            (unmarked(key), unmarked(value)),
        ) == unmarked_entries(node::put(entries, key, value)),
{
    node::lemma_place_from(entries, key, 0);
    assert(put_marks(
        entries,
        unmarked_entries(entries),
        key,
        (unmarked(key), unmarked(value)),
    ) == unmarked_entries(node::put(entries, key, value)));
}

/// Payloads whose parts have the same metadata.
proof fn lemma_same_marks(d: ValueData, other: ValueData, notes: Option<Notes>)
    requires
        data_marks(d, None) == data_marks(other, None),
    ensures
        data_marks(d, notes) == data_marks(other, notes),
{
}

/// The reading of a sequence payload.
pub proof fn lemma_sequence(items: Vec<Value>)
    ensures
        data_node(ValueData::Sequence(items)) == Node::Sequence(nodes(items@)),
{
    assert(data_node(ValueData::Sequence(items))->Sequence_0 == nodes(items@));
}

// ---------------------------------------------------------------------------
// Values
// ---------------------------------------------------------------------------

impl Value {
    /// The payload.
    pub closed spec fn payload(self) -> ValueData {
        self.data
    }

    /// The metadata.
    pub closed spec fn metadata(self) -> Option<Meta> {
        match self.meta {
            Some(b) => Some(*b),
            None => None,
        }
    }

    /// The reading of the metadata.
    pub open spec fn notes(self) -> Option<Notes> {
        match self.metadata() {
            Some(m) => Some(m@),
            None => None,
        }
    }

    pub fn new(data: ValueData) -> (v: Self)
        ensures
            v@ == data_node(data),
            v.payload() == data,
            v.metadata() is None,
            value_marks(v) == data_marks(data, None),
    {
        Self { data, meta: None }
    }

    pub fn null() -> (v: Self)
        ensures
            v@ == Node::Null,
            value_marks(v) == Marks::Scalar(None),
            v.metadata() is None,
    {
        Self::new(ValueData::Null)
    }

    pub fn bool(b: bool) -> (v: Self)
        ensures
            v@ == Node::Bool(b),
            value_marks(v) == Marks::Scalar(None),
            v.metadata() is None,
    {
        Self::new(ValueData::Bool(b))
    }

    pub fn integer(i: i64) -> (v: Self)
        ensures
            v@ == Node::Int(i),
            value_marks(v) == Marks::Scalar(None),
            v.metadata() is None,
    {
        Self::new(ValueData::Int(i))
    }

    /// A float, given by its bits.
    pub fn float(bits: u64) -> (v: Self)
        ensures
            v@ == Node::Float(bits),
            value_marks(v) == Marks::Scalar(None),
            v.metadata() is None,
    {
        Self::new(ValueData::Float(bits))
    }

    pub fn string(s: &str) -> (v: Self)
        ensures
            v@ == Node::Str(s@),
            value_marks(v) == Marks::Scalar(None),
            v.metadata() is None,
    {
        Self::new(ValueData::String(s.to_string()))
    }

    pub fn sequence(items: Vec<Value>) -> (v: Self)
        ensures
            v@ == Node::Sequence(nodes(items@)),
            v.payload() == ValueData::Sequence(items),
            value_marks(v) == Marks::Sequence(None, all_marks(items@)),
            v.metadata() is None,
    {
        proof {
            lemma_sequence(items);
            lemma_sequence_marks(items, None);
        }
        Self::new(ValueData::Sequence(items))
    }

    pub fn mapping(m: Mapping) -> (v: Self)
        ensures
            v@ == Node::Mapping(m@),
            v.payload() == ValueData::Mapping(m),
            value_marks(v) == Marks::Mapping(None, marks_of(m)),
            v.metadata() is None,
    {
        Self::new(ValueData::Mapping(m))
    }

    pub fn data(&self) -> (d: &ValueData)
        ensures
            *d == self.payload(),
            data_node(*d) == self@,
            data_marks(*d, self.notes()) == value_marks(*self),
    {
        &self.data
    }

    pub fn data_mut(&mut self) -> (d: &mut ValueData)
        ensures
            *d == old(self).payload(),
            data_node(*d) == old(self)@,
            final(self).payload() == *final(d),
            final(self)@ == data_node(*final(d)),
            value_marks(*final(self)) == data_marks(*final(d), old(self).notes()),
            final(self).metadata() == old(self).metadata(),
    {
        &mut self.data
    }

    pub fn into_data(self) -> (d: ValueData)
        ensures
            d == self.payload(),
            data_node(d) == self@,
            data_marks(d, self.notes()) == value_marks(self),
    {
        self.data
    }

    /// Returns the formatting metadata if any has been attached.
    pub fn meta(&self) -> (m: Option<&Meta>)
        ensures
            match m {
                Some(m) => self.metadata() == Some(*m),
                None => self.metadata() is None,
            },
    {
        match &self.meta {
            Some(b) => Some(&**b),
            None => None,
        }
    }

    /// Returns the metadata mutably, allocating an empty `Meta` on first access.
    pub fn meta_mut(&mut self) -> (m: &mut Meta)
        ensures
            match old(self).metadata() {
                Some(had) => *m == had,
                None => m.is_blank(),
            },
            final(self)@ == old(self)@,
            final(self).payload() == old(self).payload(),
            final(self).metadata() == Some(*final(m)),
            value_marks(*final(self)) == data_marks(old(self).payload(), Some((*final(m))@)),
    {
        if self.meta.is_none() {
            self.meta = Some(Box::new(Meta::default()));
        }
        match &mut self.meta {
            Some(b) => &mut **b,
            None => vstd::pervasive::unreached(),
        }
    }

    /// Attaches metadata, returning the value for chaining.
    pub fn with_meta(self, meta: Meta) -> (v: Self)
        ensures
            v@ == self@,
            v.payload() == self.payload(),
            v.metadata() == Some(meta),
            value_marks(v) == data_marks(self.payload(), Some(meta@)),
    {
        Self { data: self.data, meta: Some(Box::new(meta)) }
    }

    /// Removes and returns any attached metadata.
    pub fn take_meta(&mut self) -> (m: Option<Meta>)
        ensures
            m == old(self).metadata(),
            final(self)@ == old(self)@,
            final(self).payload() == old(self).payload(),
            final(self).metadata() is None,
            value_marks(*final(self)) == data_marks(old(self).payload(), None),
    {
        match self.meta.take() {
            Some(b) => Some(*b),
            None => None,
        }
    }

    pub fn is_null(&self) -> (b: bool)
        ensures
            b == (self@ is Null),
    {
        matches!(self.data, ValueData::Null)
    }

    pub fn as_bool(&self) -> (b: Option<bool>)
        ensures
            b == match self@ {
                Node::Bool(b) => Some(b),
                _ => None,
            },
    {
        match self.data {
            ValueData::Bool(b) => Some(b),
            _ => None,
        }
    }

    pub fn as_int(&self) -> (i: Option<i64>)
        ensures
            i == match self@ {
                Node::Int(i) => Some(i),
                _ => None,
            },
    {
        match self.data {
            ValueData::Int(i) => Some(i),
            _ => None,
        }
    }

    /// Returns the number a float stands for. Integers count as floats too.
    pub fn as_float(&self) -> (n: Option<Number>)
        ensures
            n == match self@ {
                Node::Float(bits) => Some(Number::Float(bits)),
                Node::Int(i) => Some(Number::Int(i)),
                _ => None,
            },
    {
        match self.data {
            ValueData::Float(bits) => Some(Number::Float(bits)),
            ValueData::Int(i) => Some(Number::Int(i)),
            _ => None,
        }
    }

    pub fn as_str(&self) -> (s: Option<&str>)
        ensures
            match self@ {
                Node::Str(t) => s matches Some(s) && s@ == t,
                _ => s is None,
            },
    {
        match &self.data {
            ValueData::String(s) => Some(s.as_str()),
            _ => None,
        }
    }

    pub fn as_sequence(&self) -> (s: Option<&[Value]>)
        ensures
            match self@ {
                Node::Sequence(items) => {
                    &&& s matches Some(s)
                    &&& nodes(s@) == items
                    &&& self.payload() matches ValueData::Sequence(held) && s@ == held@
                },
                _ => s is None,
            },
    {
        match &self.data {
            ValueData::Sequence(items) => {
                proof {
                    lemma_sequence(*items);
                }
                Some(items.as_slice())
            },
            _ => None,
        }
    }

    pub fn as_mapping(&self) -> (m: Option<&Mapping>)
        ensures
            match self@ {
                Node::Mapping(entries) => {
                    &&& m matches Some(m)
                    &&& m@ == entries
                    &&& self.payload() == ValueData::Mapping(*m)
                },
                _ => m is None,
            },
    {
        match &self.data {
            ValueData::Mapping(m) => Some(m),
            _ => None,
        }
    }
}

impl Value {
    /// Builds a scalar value by resolving raw source text under the given style
    /// and schema. Quoted/literal/folded styles always yield a string. `float`
    /// gives the bits of the number that the text writes, if it is a decimal.
    pub fn from_scalar(raw: &str, style: ScalarStyle, schema: Schema, float: u64) -> (v: Value)
        ensures
            v@ == scalar::resolved(raw@, style, schema, float),
            value_marks(v) == Marks::Scalar(None),
            v.metadata() is None,
    {
        Value::new(scalar::resolve(raw, style, schema, float))
    }
}

/// A number as a value holds it: the bits of a float, or an integer.
#[derive(Debug, Clone, Copy, PartialEq, Eq, Structural)]
pub enum Number {
    Float(u64),
    Int(i64),
}

// ---------------------------------------------------------------------------
// Mappings
// ---------------------------------------------------------------------------

/// The entries hold the readings of `pairs`.
pub open spec fn reads(pairs: Seq<(&Value, &Value)>, entries: Seq<(Node, Node)>) -> bool {
    &&& pairs.len() == entries.len()
    &&& forall|i: int|
        0 <= i < pairs.len() ==> #[trigger] entries[i] == (pairs[i].0@, pairs[i].1@)
}

/// The readings of pairs of values.
pub open spec fn pair_nodes(pairs: Seq<(Value, Value)>) -> Seq<(Node, Node)> {
    Seq::new(pairs.len(), |i: int| (pairs[i].0@, pairs[i].1@))
}

/// The metadata of pairs of values.
pub open spec fn pair_marks(pairs: Seq<(Value, Value)>) -> Seq<(Marks, Marks)> {
    Seq::new(pairs.len(), |i: int| (value_marks(pairs[i].0), value_marks(pairs[i].1)))
}

impl Mapping {
    /// `IndexMap::new`: the new map is empty.
    #[verifier::external_body]
    pub fn new() -> (m: Self)
        ensures
            entries_of(m) == Seq::<(Node, Node)>::empty(),
            marks_of(m) == Seq::<(Marks, Marks)>::empty(),
    {
        Self { entries: IndexMap::new() }
    }

    /// `IndexMap::insert`: an equal key that is there keeps its place and gets
    /// the new value, and the old value is returned; a new key goes last. The stored
    /// key stays, and what is stored keeps its metadata.
    #[verifier::external_body]
    pub fn insert(&mut self, key: Value, value: Value) -> (was: Option<Value>)
        ensures
            entries_of(*final(self)) == node::put(entries_of(*old(self)), key@, value@),
            marks_of(*final(self)) == put_marks(
                entries_of(*old(self)),
                marks_of(*old(self)),
                key@,
                (value_marks(key), value_marks(value)),
            ),
            match node::place(entries_of(*old(self)), key@) {
                Some(i) => {
                    &&& was matches Some(v)
                    &&& v@ == entries_of(*old(self))[i].1
                    &&& value_marks(v) == marks_of(*old(self))[i].1
                },
                None => was is None,
            },
    {
        self.entries.insert(key, value)
    }

    /// `IndexMap::get`: the value of an equal key, with its metadata, if there is one.
    #[verifier::external_body]
    pub fn get(&self, key: &Value) -> (v: Option<&Value>)
        ensures
            match node::place(entries_of(*self), key@) {
                Some(i) => {
                    &&& v matches Some(v)
                    &&& v@ == entries_of(*self)[i].1
                    &&& value_marks(*v) == marks_of(*self)[i].1
                },
                None => v is None,
            },
    {
        self.entries.get(key)
    }

    /// `IndexMap::get_mut`: the value of an equal key, if there is one; what is
    /// written there, metadata included, becomes the value of that key, and nothing
    /// else changes.
    #[verifier::external_body]
    pub fn get_mut(&mut self, key: &Value) -> (v: Option<&mut Value>)
        ensures
            match v {
                Some(v) => {
                    &&& node::lookup(entries_of(*old(self)), key@) == Some(v@)
                    &&& entries_of(*final(self)) == node::put(
                        entries_of(*old(self)),
                        key@,
                        (*final(v))@,
                    )
                    &&& ({
                        let i = node::place(entries_of(*old(self)), key@)->Some_0;
                        let had = marks_of(*old(self));
                        &&& value_marks(*v) == had[i].1
                        &&& marks_of(*final(self)) == had.update(
                            i,
                            (had[i].0, value_marks(*final(v))),
                        )
                    })
                },
                None => {
                    &&& node::lookup(entries_of(*old(self)), key@) is None
                    &&& entries_of(*final(self)) == entries_of(*old(self))
                    &&& marks_of(*final(self)) == marks_of(*old(self))
                },
            },
    {
        self.entries.get_mut(key)
    }

    pub fn contains_key(&self, key: &Value) -> (b: bool)
        ensures
            b == (node::lookup(self@, key@) is Some),
    {
        self.get(key).is_some()
    }

    /// `IndexMap::len`: how many entries there are.
    #[verifier::external_body]
    pub fn len(&self) -> (n: usize)
        ensures
            n == entries_of(*self).len(),
    {
        self.entries.len()
    }

    pub fn is_empty(&self) -> (b: bool)
        ensures
            b == (self@.len() == 0),
    {
        self.len() == 0
    }

    /// `IndexMap::iter`: all entries in insertion order, with their metadata. No two
    /// keys are equal.
    #[verifier::external_body]
    pub fn iter(&self) -> (pairs: Vec<(&Value, &Value)>)
        ensures
            reads(pairs@, entries_of(*self)),
            marks_of(*self) == Seq::new(
                pairs@.len(),
                |i: int| (value_marks(*pairs@[i].0), value_marks(*pairs@[i].1)),
            ),
            forall|i: int, j: int|
                0 <= i < j < pairs@.len() ==> (#[trigger] pairs@[i]).0@ != (#[trigger] pairs@[j]).0@,
    {
        self.entries.iter().collect()
    }

    /// `IndexMap::iter_mut`: all entries in insertion order; what is written to the
    /// values, metadata included, becomes their value, and nothing else changes.
    #[verifier::external_body]
    pub fn iter_mut(&mut self) -> (pairs: Vec<(&Value, &mut Value)>)
        ensures
            pairs@.len() == entries_of(*old(self)).len(),
            forall|i: int|
                0 <= i < pairs@.len() ==> #[trigger] entries_of(*old(self))[i] == (
                    pairs@[i].0@,
                    pairs@[i].1@,
                ),
            entries_of(*final(self)) == Seq::new(
                pairs@.len(),
                |i: int| (pairs@[i].0@, (*final(pairs@[i].1))@),
            ),
            marks_of(*old(self)) == Seq::new(
                pairs@.len(),
                |i: int| (value_marks(*pairs@[i].0), value_marks(*pairs@[i].1)),
            ),
            marks_of(*final(self)) == Seq::new(
                pairs@.len(),
                |i: int| (value_marks(*pairs@[i].0), value_marks(*final(pairs@[i].1))),
            ),
    {
        self.entries.iter_mut().collect()
    }

    /// `IndexMap::into_iter`: all entries in insertion order, by value, with their
    /// metadata.
    #[verifier::external_body]
    pub fn into_iter(self) -> (pairs: Vec<(Value, Value)>)
        ensures
            pair_nodes(pairs@) == entries_of(self),
            pair_marks(pairs@) == marks_of(self),
    {
        self.entries.into_iter().collect()
    }
}

impl Default for Mapping {
    fn default() -> (m: Self)
        ensures
            m@ == Seq::<(Node, Node)>::empty(),
            marks_of(m) == Seq::<(Marks, Marks)>::empty(),
    {
        Self::new()
    }
}

// ---------------------------------------------------------------------------
// Copies
// ---------------------------------------------------------------------------

/// An item of a sequence is smaller than the sequence.
pub proof fn lemma_item_smaller(n: Node, i: int)
    requires
        n is Sequence,
        0 <= i < n->Sequence_0.len(),
    ensures
        decreases_to!(n => n->Sequence_0[i]),
{
    assert(decreases_to!(n => n->Sequence_0));
    assert(decreases_to!(n->Sequence_0 => n->Sequence_0[i]));
}

/// The key and the value of an entry are smaller than all entries together.
pub proof fn lemma_entry_smaller(entries: Seq<(Node, Node)>, i: int)
    requires
        0 <= i < entries.len(),
    ensures
        decreases_to!(entries => entries[i].0),
        decreases_to!(entries => entries[i].1),
{
    let entry = entries[i];
    assert(decreases_to!(entries => entries[i]));
    assert(decreases_to!(entry => entry.0));
    assert(decreases_to!(entry => entry.1));
}

/// The entries of a mapping are smaller than the mapping.
pub proof fn lemma_entries_smaller(n: Node)
    requires
        n is Mapping,
    ensures
        decreases_to!(n => n->Mapping_0),
{
    assert(decreases_to!(n => n->Mapping_0));
}

fn copy_value(v: &Value) -> (r: Value)
    ensures
        r@ == v@,
        r.notes() == v.notes(),
        value_marks(r) == value_marks(*v),
    decreases v@, 1int,
{
    let meta = match &v.meta {
        Some(b) => Some(Box::new((&**b).clone())),
        None => None,
    };
    let r = Value { data: copy_data(&v.data), meta };
    proof {
        lemma_same_marks(r.data, v.data, v.notes());
    }
    r
}

fn copy_data(d: &ValueData) -> (r: ValueData)
    ensures
        data_node(r) == data_node(*d),
        data_marks(r, None) == data_marks(*d, None),
    decreases data_node(*d), 0int,
{
    match d {
        ValueData::Null => ValueData::Null,
        ValueData::Bool(b) => ValueData::Bool(*b),
        ValueData::Int(i) => ValueData::Int(*i),
        ValueData::Float(bits) => ValueData::Float(*bits),
        ValueData::String(s) => ValueData::String(s.clone()),
        ValueData::Sequence(items) => {
            let mut copies: Vec<Value> = Vec::new();
            let mut i: usize = 0;
            proof {
                lemma_sequence(*items);
            }
            while i < items.len()
                invariant
                    i <= items.len(),
                    data_node(*d) == Node::Sequence(nodes(items@)),
                    copies@.len() == i,
                    forall|j: int| 0 <= j < i ==> (#[trigger] copies@[j])@ == items@[j]@,
                    forall|j: int|
                        0 <= j < i ==> value_marks(#[trigger] copies@[j]) == value_marks(items@[j]),
                decreases items.len() - i,
            {
                proof {
                    lemma_item_smaller(data_node(*d), i as int);
                }
                copies.push(copy_value(&items[i]));
                i += 1;
            }
            proof {
                lemma_sequence(copies);
                assert(nodes(copies@) == nodes(items@));
                lemma_sequence_marks(*items, None);
                lemma_sequence_marks(copies, None);
                assert(all_marks(copies@) == all_marks(items@));
            }
            ValueData::Sequence(copies)
        },
        ValueData::Mapping(m) => {
            proof {
                lemma_entries_smaller(data_node(*d));
            }
            ValueData::Mapping(copy_mapping(m))
        },
    }
}

fn copy_mapping(m: &Mapping) -> (copies: Mapping)
    ensures
        copies@ == m@,
        marks_of(copies) == marks_of(*m),
    decreases m@, 0int,
{
    let pairs = m.iter();
    let ghost entries = m@;
    let ghost marks = marks_of(*m);
    let mut copies = Mapping::new();
    assert(marks_of(copies) == marks.take(0));
    let mut i: usize = 0;
    while i < pairs.len()
        invariant
            i <= pairs.len(),
            entries == m@,
            reads(pairs@, entries),
            forall|i: int, j: int|
                0 <= i < j < pairs@.len() ==> (#[trigger] pairs@[i]).0@ != (#[trigger] pairs@[j]).0@,
            copies@ == entries.take(i as int),
            marks == marks_of(*m),
            marks == Seq::new(
                pairs@.len(),
                |i: int| (value_marks(*pairs@[i].0), value_marks(*pairs@[i].1)),
            ),
            marks_of(copies) == marks.take(i as int),
        decreases pairs.len() - i,
    {
        proof {
            lemma_entry_smaller(entries, i as int);
            assert(entries[i as int] == (pairs@[i as int].0@, pairs@[i as int].1@));
        }
        let key = copy_value(pairs[i].0);
        let value = copy_value(pairs[i].1);
        proof {
            node::lemma_place_from(copies@, key@, 0);
            if let Some(j) = node::place(copies@, key@) {
                assert(copies@[j] == entries[j]);
                assert(pairs@[j].0@ != pairs@[i as int].0@);
                assert(false);
            }
            assert(copies@.push(entries[i as int]) == entries.take(i + 1));
            assert(marks_of(copies).push(marks[i as int]) == marks.take(i + 1));
        }
        copies.insert(key, value);
        i += 1;
    }
    assert(entries.take(i as int) == entries);
    assert(marks.take(i as int) == marks);
    copies
}

impl Clone for Mapping {
    fn clone(&self) -> (m: Self)
        ensures
            m@ == self@,
            marks_of(m) == marks_of(*self),
    {
        copy_mapping(self)
    }
}

impl Clone for Value {
    fn clone(&self) -> (v: Self)
        ensures
            v@ == self@,
            v.notes() == self.notes(),
            value_marks(v) == value_marks(*self),
    {
        copy_value(self)
    }
}

impl Clone for ValueData {
    fn clone(&self) -> (d: Self)
        ensures
            data_node(d) == data_node(*self),
            data_marks(d, None) == data_marks(*self, None),
    {
        copy_data(self)
    }
}

// ---------------------------------------------------------------------------
// Equality and order: data only, metadata ignored
// ---------------------------------------------------------------------------

fn compare_numbers(a: i128, b: i128) -> (o: Ordering)
    ensures
        o == node::decided(a < b, a == b),
{
    if a < b {
        Ordering::Less
    } else if a == b {
        Ordering::Equal
    } else {
        Ordering::Greater
    }
}

/// Where a float stands in the total order of floats.
fn float_key(bits: u64) -> (k: i128)
    ensures
        k == node::float_key(bits),
{
    if bits < 0x8000_0000_0000_0000 {
        bits as i128
    } else {
        0x7fff_ffff_ffff_ffff - bits as i128
    }
}

fn widened(n: i64) -> (k: i128)
    ensures
        k == n,
{
    n as i128
}

fn length(n: usize) -> (k: i128)
    ensures
        k == n,
{
    n as i128
}

fn rank(d: &ValueData) -> (r: i128)
    ensures
        r == node::rank(data_node(*d)),
{
    match d {
        ValueData::Null => 0,
        ValueData::Bool(_) => 1,
        ValueData::Int(_) => 2,
        ValueData::Float(_) => 3,
        ValueData::String(_) => 4,
        ValueData::Sequence(_) => 5,
        ValueData::Mapping(_) => 6,
    }
}

fn compare_texts(a: &str, b: &str) -> (o: Ordering)
    ensures
        o == node::text_order(a@, b@, 0),
{
    let x = chars_of(a);
    let y = chars_of(b);
    let mut i: usize = 0;
    let ghost mut at: int = 0;
    while i < x.len() && i < y.len()
        invariant
            i <= x.len(),
            i <= y.len(),
            at == i,
            x@ == a@,
            y@ == b@,
            node::text_order(a@, b@, at) == node::text_order(a@, b@, 0),
        decreases x.len() - i,
    {
        let c = x[i];
        let d = y[i];
        if c != d {
            return if c < d {
                Ordering::Less
            } else {
                Ordering::Greater
            };
        }
        i += 1;
        proof {
            at = at + 1;
        }
    }
    compare_numbers(length(x.len()), length(y.len()))
}

fn compare_values(a: &Value, b: &Value) -> (o: Ordering)
    ensures
        o == node::order(a@, b@),
    decreases a@, 1int,
{
    compare_data(&a.data, &b.data)
}

fn compare_data(a: &ValueData, b: &ValueData) -> (o: Ordering)
    ensures
        o == node::order(data_node(*a), data_node(*b)),
    decreases data_node(*a), 0int,
{
    match (a, b) {
        (ValueData::Bool(x), ValueData::Bool(y)) => if *x == *y {
            Ordering::Equal
        } else if *y {
            Ordering::Less
        } else {
            Ordering::Greater
        },
        (ValueData::Int(x), ValueData::Int(y)) => compare_numbers(widened(*x), widened(*y)),
        (ValueData::Float(x), ValueData::Float(y)) => compare_numbers(float_key(*x), float_key(*y)),
        (ValueData::String(x), ValueData::String(y)) => compare_texts(x.as_str(), y.as_str()),
        (ValueData::Sequence(x), ValueData::Sequence(y)) => {
            proof {
                lemma_sequence(*x);
                lemma_sequence(*y);
            }
            let mut i: usize = 0;
            let ghost mut at: int = 0;
            while i < x.len() && i < y.len()
                invariant
                    i <= x.len(),
                    i <= y.len(),
                    at == i,
                    data_node(*a) == Node::Sequence(nodes(x@)),
                    data_node(*b) == Node::Sequence(nodes(y@)),
                    node::items_order(nodes(x@), nodes(y@), at) == node::order(
                        data_node(*a),
                        data_node(*b),
                    ),
                decreases x.len() - i,
            {
                proof {
                    lemma_item_smaller(data_node(*a), at);
                }
                match compare_values(&x[i], &y[i]) {
                    Ordering::Equal => {},
                    other => {
                        return other;
                    },
                }
                i += 1;
                proof {
                    at = at + 1;
                }
            }
            compare_numbers(length(x.len()), length(y.len()))
        },
        (ValueData::Mapping(x), ValueData::Mapping(y)) => {
            proof {
                lemma_entries_smaller(data_node(*a));
            }
            compare_mappings(x, y)
        },
        _ => compare_numbers(rank(a), rank(b)),
    }
}

fn compare_mappings(x: &Mapping, y: &Mapping) -> (o: Ordering)
    ensures
        o == node::entries_order(x@, y@, 0),
    decreases x@, 0int,
{
    let xs = x.iter();
    let ys = y.iter();
    let mut i: usize = 0;
    let ghost mut at: int = 0;
    while i < xs.len() && i < ys.len()
        invariant
            i <= xs.len(),
            i <= ys.len(),
            at == i,
            reads(xs@, x@),
            reads(ys@, y@),
            node::entries_order(x@, y@, at) == node::entries_order(x@, y@, 0),
        decreases xs.len() - i,
    {
        proof {
            lemma_entry_smaller(x@, at);
            assert(x@[at] == (xs@[at].0@, xs@[at].1@));
            assert(y@[at] == (ys@[at].0@, ys@[at].1@));
        }
        match compare_values(xs[i].0, ys[i].0) {
            Ordering::Equal => {},
            other => {
                return other;
            },
        }
        match compare_values(xs[i].1, ys[i].1) {
            Ordering::Equal => {},
            other => {
                return other;
            },
        }
        i += 1;
        proof {
            at = at + 1;
        }
    }
    compare_numbers(length(xs.len()), length(ys.len()))
}

fn is_equal(o: Ordering) -> (b: bool)
    ensures
        b == (o == Ordering::Equal),
{
    match o {
        Ordering::Equal => true,
        _ => false,
    }
}

impl PartialEq for Value {
    fn eq(&self, other: &Self) -> (b: bool) {
        proof {
            node::law_order_is_antisymmetric(self@, other@);
        }
        is_equal(compare_values(self, other))
    }
}

impl PartialEqSpecImpl for Value {
    open spec fn obeys_eq_spec() -> bool {
        true
    }

    open spec fn eq_spec(&self, other: &Self) -> bool {
        self@ == other@
    }
}

impl Eq for Value {

}

impl PartialOrd for Value {
    fn partial_cmp(&self, other: &Self) -> (o: Option<Ordering>) {
        Some(compare_values(self, other))
    }
}

impl PartialOrdSpecImpl for Value {
    open spec fn obeys_partial_cmp_spec() -> bool {
        true
    }

    open spec fn partial_cmp_spec(&self, other: &Self) -> Option<Ordering> {
        Some(node::order(self@, other@))
    }
}

impl PartialEq for ValueData {
    fn eq(&self, other: &Self) -> (b: bool) {
        proof {
            node::law_order_is_antisymmetric(data_node(*self), data_node(*other));
        }
        is_equal(compare_data(self, other))
    }
}

impl PartialEqSpecImpl for ValueData {
    open spec fn obeys_eq_spec() -> bool {
        true
    }

    open spec fn eq_spec(&self, other: &Self) -> bool {
        data_node(*self) == data_node(*other)
    }
}

impl Eq for ValueData {

}

impl PartialOrd for ValueData {
    fn partial_cmp(&self, other: &Self) -> (o: Option<Ordering>) {
        Some(compare_data(self, other))
    }
}

impl PartialOrdSpecImpl for ValueData {
    open spec fn obeys_partial_cmp_spec() -> bool {
        true
    }

    open spec fn partial_cmp_spec(&self, other: &Self) -> Option<Ordering> {
        Some(node::order(data_node(*self), data_node(*other)))
    }
}

impl PartialEq for Mapping {
    fn eq(&self, other: &Self) -> (b: bool) {
        proof {
            node::law_order_is_antisymmetric(Node::Mapping(self@), Node::Mapping(other@));
        }
        is_equal(compare_mappings(self, other))
    }
}

impl PartialEqSpecImpl for Mapping {
    open spec fn obeys_eq_spec() -> bool {
        true
    }

    open spec fn eq_spec(&self, other: &Self) -> bool {
        self@ == other@
    }
}

impl Eq for Mapping {

}

impl PartialOrd for Mapping {
    fn partial_cmp(&self, other: &Self) -> (o: Option<Ordering>) {
        Some(compare_mappings(self, other))
    }
}

impl PartialOrdSpecImpl for Mapping {
    open spec fn obeys_partial_cmp_spec() -> bool {
        true
    }

    open spec fn partial_cmp_spec(&self, other: &Self) -> Option<Ordering> {
        Some(node::entries_order(self@, other@, 0))
    }
}

// ---------------------------------------------------------------------------
// Hashing
// ---------------------------------------------------------------------------

/// The numbers that a value is hashed by. They depend on its reading alone, so
/// equal values have equal hashes.
pub open spec fn digest(n: Node) -> Seq<u64>
    decreases n, 0int,
{
    match n {
        Node::Null => seq![0],
        Node::Bool(b) => seq![1, if b { 1 } else { 0 }],
        Node::Int(i) => seq![2, i as u64],
        Node::Float(bits) => seq![3, bits],
        Node::Str(s) => seq![4, s.len() as u64] + Seq::new(s.len(), |i: int| s[i] as u64),
        Node::Sequence(items) => seq![5, items.len() as u64] + items_digest(items, 0),
        Node::Mapping(entries) => seq![6, entries.len() as u64] + entries_digest(entries, 0),
    }
}

pub open spec fn items_digest(items: Seq<Node>, i: int) -> Seq<u64>
    decreases items, items.len() - i,
{
    if 0 <= i < items.len() {
        digest(items[i]) + items_digest(items, i + 1)
    } else {
        Seq::empty()
    }
}

pub open spec fn entries_digest(entries: Seq<(Node, Node)>, i: int) -> Seq<u64>
    decreases entries, entries.len() - i,
{
    if 0 <= i < entries.len() {
        digest(entries[i].0) + digest(entries[i].1) + entries_digest(entries, i + 1)
    } else {
        Seq::empty()
    }
}

proof fn lemma_items_digest(items: Seq<Node>, n: Node, i: int)
    requires
        0 <= i <= items.len(),
    ensures
        items_digest(items.push(n), i) == items_digest(items, i) + digest(n),
    decreases items.len() - i,
{
    let all = items.push(n);
    if i < items.len() {
        lemma_items_digest(items, n, i + 1);
        assert(digest(items[i]) + (items_digest(items, i + 1) + digest(n)) == digest(items[i])
            + items_digest(items, i + 1) + digest(n));
    } else {
        assert(items_digest(all, i + 1) == Seq::<u64>::empty());
        assert(digest(n) + Seq::<u64>::empty() == Seq::<u64>::empty() + digest(n));
    }
}

proof fn lemma_entries_digest(entries: Seq<(Node, Node)>, k: Node, v: Node, i: int)
    requires
        0 <= i <= entries.len(),
    ensures
        entries_digest(entries.push((k, v)), i) == entries_digest(entries, i) + digest(k) + digest(
            v,
        ),
    decreases entries.len() - i,
{
    let all = entries.push((k, v));
    if i < entries.len() {
        lemma_entries_digest(entries, k, v, i + 1);
        let here = digest(entries[i].0) + digest(entries[i].1);
        let rest = entries_digest(entries, i + 1);
        assert(here + (rest + digest(k) + digest(v)) == here + rest + digest(k) + digest(v));
    } else {
        assert(entries_digest(all, i + 1) == Seq::<u64>::empty());
        assert(digest(k) + digest(v) + Seq::<u64>::empty() == Seq::<u64>::empty() + digest(k)
            + digest(v));
    }
}

/// A digest tells the kind of a value, and for a string or a collection how long it is; one
/// more character, item or entry adds its own numbers at the end.
pub proof fn law_digests_hold_every_part(
    s: Seq<char>,
    c: char,
    items: Seq<Node>,
    entries: Seq<(Node, Node)>,
    k: Node,
    v: Node,
)
    ensures
        digest(Node::Null) == seq![0u64],
        digest(Node::Bool(false)) == seq![1u64, 0],
        digest(Node::Bool(true)) == seq![1u64, 1],
        forall|i: i64| #[trigger] digest(Node::Int(i)) == seq![2u64, i as u64],
        forall|bits: u64| #[trigger] digest(Node::Float(bits)) == seq![3u64, bits],
        digest(Node::Str(Seq::empty())) == seq![4u64, 0],
        digest(Node::Str(s.push(c))) == seq![4u64, (s.len() + 1) as u64] + digest(
            Node::Str(s),
        ).skip(2) + seq![c as u64],
        digest(Node::Sequence(Seq::empty())) == seq![5u64, 0],
        digest(Node::Sequence(items.push(v))) == seq![5u64, (items.len() + 1) as u64] + digest(
            Node::Sequence(items),
        ).skip(2) + digest(v),
        digest(Node::Mapping(Seq::empty())) == seq![6u64, 0],
        digest(Node::Mapping(entries.push((k, v)))) == seq![6u64, (entries.len() + 1) as u64]
            + digest(Node::Mapping(entries)).skip(2) + digest(k) + digest(v),
{
    lemma_items_digest(items, v, 0);
    lemma_entries_digest(entries, k, v, 0);
    let few = items_digest(items, 0);
    assert(digest(Node::Sequence(items)).skip(2) == few);
    let some = entries_digest(entries, 0);
    assert(digest(Node::Mapping(entries)).skip(2) == some);
    let more = seq![6u64, (entries.len() + 1) as u64];
    assert(more + (some + digest(k) + digest(v)) == more + some + digest(k) + digest(v));
    let five = seq![5u64, (items.len() + 1) as u64];
    assert(five + (few + digest(v)) == five + few + digest(v));
    assert(items_digest(Seq::empty(), 0) == Seq::<u64>::empty());
    assert(entries_digest(Seq::empty(), 0) == Seq::<u64>::empty());
}

/// Appends a value's digest to `out`.
fn push_digest(v: &Value, out: &mut Vec<u64>)
    ensures
        final(out)@ == old(out)@ + digest(v@),
    decreases v@, 1int,
{
    push_data_digest(&v.data, out)
}

fn push_data_digest(d: &ValueData, out: &mut Vec<u64>)
    ensures
        final(out)@ == old(out)@ + digest(data_node(*d)),
    decreases data_node(*d), 0int,
{
    match d {
        ValueData::Null => {
            out.push(0);
            assert(out@ == old(out)@ + digest(data_node(*d)));
        },
        ValueData::Bool(b) => {
            out.push(1);
            out.push(if *b { 1 } else { 0 });
            assert(out@ == old(out)@ + digest(data_node(*d)));
        },
        ValueData::Int(i) => {
            out.push(2);
            out.push(*i as u64);
            assert(out@ == old(out)@ + digest(data_node(*d)));
        },
        ValueData::Float(bits) => {
            out.push(3);
            out.push(*bits);
            assert(out@ == old(out)@ + digest(data_node(*d)));
        },
        ValueData::String(s) => {
            let chars = chars_of(s.as_str());
            out.push(4);
            out.push(chars.len() as u64);
            let mut i: usize = 0;
            while i < chars.len()
                invariant
                    i <= chars.len(),
                    chars@ == s@,
                    out@ == old(out)@ + seq![4, s@.len() as u64] + Seq::new(
                        i as nat,
                        |j: int| s@[j] as u64,
                    ),
                decreases chars.len() - i,
            {
                out.push(chars[i] as u64);
                i += 1;
            }
            assert(out@ == old(out)@ + digest(data_node(*d)));
        },
        ValueData::Sequence(items) => {
            proof {
                lemma_sequence(*items);
            }
            out.push(5);
            out.push(items.len() as u64);
            let mut i: usize = 0;
            while i < items.len()
                invariant
                    i <= items.len(),
                    data_node(*d) == Node::Sequence(nodes(items@)),
                    out@ + items_digest(nodes(items@), i as int) == old(out)@ + digest(data_node(*d)),
                decreases items.len() - i,
            {
                proof {
                    lemma_item_smaller(data_node(*d), i as int);
                }
                let ghost had = out@;
                push_digest(&items[i], out);
                proof {
                    let rest = items_digest(nodes(items@), i + 1);
                    let here = digest(nodes(items@)[i as int]);
                    assert(had + here + rest == had + (here + rest));
                }
                i += 1;
            }
        },
        ValueData::Mapping(m) => {
            proof {
                lemma_entries_smaller(data_node(*d));
            }
            push_mapping_digest(m, out);
        },
    }
}

fn push_mapping_digest(m: &Mapping, out: &mut Vec<u64>)
    ensures
        final(out)@ == old(out)@ + digest(Node::Mapping(m@)),
    decreases m@, 0int,
{
    let pairs = m.iter();
    let ghost all = digest(Node::Mapping(m@));
    out.push(6);
    out.push(pairs.len() as u64);
    let mut i: usize = 0;
    while i < pairs.len()
        invariant
            i <= pairs.len(),
            reads(pairs@, m@),
            all == digest(Node::Mapping(m@)),
            out@ + entries_digest(m@, i as int) == old(out)@ + all,
        decreases pairs.len() - i,
    {
        proof {
            lemma_entry_smaller(m@, i as int);
            assert(m@[i as int] == (pairs@[i as int].0@, pairs@[i as int].1@));
        }
        let ghost had = out@;
        push_digest(pairs[i].0, out);
        push_digest(pairs[i].1, out);
        proof {
            let rest = entries_digest(m@, i + 1);
            let key = digest(m@[i as int].0);
            let value = digest(m@[i as int].1);
            assert(had + key + value + rest == had + (key + value + rest));
        }
        i += 1;
    }
}

impl Value {
    /// The numbers that this value is hashed by.
    pub fn digest(&self) -> (out: Vec<u64>)
        ensures
            out@ == digest(self@),
    {
        let mut out: Vec<u64> = Vec::new();
        push_digest(self, &mut out);
        assert(Seq::<u64>::empty() + digest(self@) == digest(self@));
        out
    }
}

impl ValueData {
    /// The numbers that this payload is hashed by: those of a value with it.
    pub fn digest(&self) -> (out: Vec<u64>)
        ensures
            out@ == digest(data_node(*self)),
    {
        let mut out: Vec<u64> = Vec::new();
        push_data_digest(self, &mut out);
        assert(out@ == digest(data_node(*self)));
        out
    }
}

impl Mapping {
    /// The numbers that this mapping is hashed by, in the order of its entries.
    pub fn digest(&self) -> (out: Vec<u64>)
        ensures
            out@ == digest(Node::Mapping(self@)),
    {
        let mut out: Vec<u64> = Vec::new();
        push_mapping_digest(self, &mut out);
        assert(out@ == digest(Node::Mapping(self@)));
        out
    }
}

/// `Vec::hash`: feeds the numbers to a hasher. Nothing is claimed of the hash.
#[verifier::external_body]
fn hash_numbers<H: Hasher>(numbers: &Vec<u64>, state: &mut H) {
    numbers.hash(state)
}

impl Hash for Value {
    fn hash<H: Hasher>(&self, state: &mut H) {
        hash_numbers(&self.digest(), state)
    }
}

impl Hash for ValueData {
    fn hash<H: Hasher>(&self, state: &mut H) {
        hash_numbers(&self.digest(), state)
    }
}

impl Hash for Mapping {
    fn hash<H: Hasher>(&self, state: &mut H) {
        hash_numbers(&self.digest(), state)
    }
}

// ---------------------------------------------------------------------------
// Conversions
// ---------------------------------------------------------------------------

impl From<bool> for Value {
    fn from(b: bool) -> (v: Self)
        ensures
            v@ == Node::Bool(b),
            v.metadata() is None,
            value_marks(v) == Marks::Scalar(None),
    {
        Value::bool(b)
    }
}

impl FromSpecImpl<bool> for Value {
    open spec fn obeys_from_spec() -> bool {
        false
    }

    open spec fn from_spec(b: bool) -> Value {
        arbitrary()
    }
}

impl From<i64> for Value {
    fn from(i: i64) -> (v: Self)
        ensures
            v@ == Node::Int(i),
            v.metadata() is None,
            value_marks(v) == Marks::Scalar(None),
    {
        Value::integer(i)
    }
}

impl FromSpecImpl<i64> for Value {
    open spec fn obeys_from_spec() -> bool {
        false
    }

    open spec fn from_spec(i: i64) -> Value {
        arbitrary()
    }
}

impl From<&str> for Value {
    fn from(s: &str) -> (v: Self)
        ensures
            v@ == Node::Str(s@),
            v.metadata() is None,
            value_marks(v) == Marks::Scalar(None),
    {
        Value::string(s)
    }
}

impl FromSpecImpl<&str> for Value {
    open spec fn obeys_from_spec() -> bool {
        false
    }

    open spec fn from_spec(s: &str) -> Value {
        arbitrary()
    }
}

impl From<String> for Value {
    fn from(s: String) -> (v: Self)
        ensures
            v@ == Node::Str(s@),
            v.metadata() is None,
            value_marks(v) == Marks::Scalar(None),
    {
        Value::new(ValueData::String(s))
    }
}

impl FromSpecImpl<String> for Value {
    open spec fn obeys_from_spec() -> bool {
        false
    }

    open spec fn from_spec(s: String) -> Value {
        arbitrary()
    }
}

} // verus!
