//! Building values piece by piece.

use crate::error;
use crate::error::{Error, ErrorKind, Fault};
use crate::node;
use crate::node::Node;
use crate::value;
use crate::value::{Mapping, Marks, Value, ValueData};
use vstd::prelude::*;

verus! {

/// An enum variant with a payload: a mapping from its name to the payload.
pub open spec fn variant_node(variant: Seq<char>, payload: Node) -> Node {
    Node::Mapping(seq![(Node::Str(variant), payload)])
}

/// The metadata of an enum variant whose payload has the given metadata: none but
/// that.
pub open spec fn variant_marks(payload: Marks) -> Marks {
    Marks::Mapping(None, seq![(Marks::Scalar(None), payload)])
}

/// A mapping of one entry.
fn single_entry(key: &str, value: Value) -> (v: Value)
    ensures
        v@ == variant_node(key@, value@),
        value::value_marks(v) == variant_marks(value::value_marks(value)),
{
    let mut map = Mapping::new();
    map.insert(Value::string(key), value);
    let v = Value::mapping(map);
    assert(v@ == variant_node(key@, value@)) by {
        assert(node::place(Seq::empty(), Node::Str(key@)) is None);
        assert(v@->Mapping_0 == seq![(Node::Str(key@), value@)]);
    }
    assert(value::marks_of(map) == seq![(Marks::Scalar(None), value::value_marks(value))]) by {
        assert(node::place(Seq::empty(), Node::Str(key@)) is None);
    }
    v
}

/// The fault of a number that is too large for an integer value.
pub open spec fn too_large() -> Fault {
    error::bare_fault(ErrorKind::Compose, "u64 value exceeds i64 range"@)
}

/// An unsigned number as a value; integers are held as `i64`.
pub fn serialize_u64(v: u64) -> (res: Result<Value, Error>)
    ensures
        if v <= i64::MAX {
            &&& res matches Ok(r)
            &&& r@ == Node::Int(v as i64)
            &&& value::value_marks(r) == Marks::Scalar(None)
        } else {
            res matches Err(e) && e@ == too_large()
        },
{
    if v <= i64::MAX as u64 {
        Ok(Value::integer(v as i64))
    } else {
        Err(Error::new(ErrorKind::Compose, "u64 value exceeds i64 range"))
    }
}

/// A character as a string of one character.
pub fn serialize_char(c: char) -> (v: Value)
    ensures
        v@ == Node::Str(seq![c]),
        value::value_marks(v) == Marks::Scalar(None),
{
    let mut s = String::new();
    s.push(c);
    let v = Value::string(s.as_str());
    assert(v@ == Node::Str(seq![c])) by {
        assert(s@ == seq![c]);
    }
    v
}

/// Bytes as a sequence of integers.
pub fn serialize_bytes(bytes: &[u8]) -> (v: Value)
    ensures
        v@ == Node::Sequence(Seq::new(bytes@.len(), |i: int| Node::Int(bytes@[i] as i64))),
        value::is_bare(v),
{
    let mut items: Vec<Value> = Vec::new();
    let mut i: usize = 0;
    while i < bytes.len()
        invariant
            i <= bytes@.len(),
            items@.len() == i,
            forall|j: int| 0 <= j < i ==> (#[trigger] items@[j])@ == Node::Int(bytes@[j] as i64),
            value::are_all_bare(items@),
        decreases bytes@.len() - i,
    {
        items.push(Value::integer(bytes[i] as i64));
        i += 1;
    }
    assert(value::nodes(items@) == Seq::new(bytes@.len(), |i: int| Node::Int(bytes@[i] as i64)));
    proof {
        value::lemma_bare_sequence(items@);
    }
    Value::sequence(items)
}

/// A newtype variant: its name and what it wraps.
pub fn serialize_newtype_variant(variant: &str, payload: Value) -> (v: Value)
    ensures
        v@ == variant_node(variant@, payload@),
        value::value_marks(v) == variant_marks(value::value_marks(payload)),
{
    single_entry(variant, payload)
}

// ---------------------------------------------------------------------------
// Sequences
// ---------------------------------------------------------------------------

/// A sequence in the making.
pub struct SerializeSeq {
    items: Vec<Value>,
}

impl View for SerializeSeq {
    type V = Seq<Value>;

    closed spec fn view(&self) -> Seq<Value> {
        self.items@
    }
}

impl SerializeSeq {
    pub fn new() -> (s: Self)
        ensures
            s@ == Seq::<Value>::empty(),
    {
        Self { items: Vec::new() }
    }

    pub fn serialize_element(&mut self, item: Value)
        ensures
            final(self)@ == old(self)@.push(item),
    {
        self.items.push(item);
    }

    pub fn end(self) -> (v: Value)
        ensures
            v@ == Node::Sequence(value::nodes(self@)),
            v.payload() matches ValueData::Sequence(items) && items@ == self@,
            value::value_marks(v) == Marks::Sequence(None, value::all_marks(self@)),
    {
        Value::sequence(self.items)
    }
}

/// A tuple variant in the making.
pub struct SerializeTupleVariant {
    variant: String,
    items: SerializeSeq,
}

impl SerializeTupleVariant {
    /// The name of the variant.
    pub closed spec fn name(&self) -> Seq<char> {
        self.variant@
    }

    /// The fields so far.
    pub closed spec fn fields(&self) -> Seq<Value> {
        self.items@
    }

    pub fn new(variant: &str) -> (s: Self)
        ensures
            s.name() == variant@,
            s.fields() == Seq::<Value>::empty(),
    {
        Self { variant: variant.to_string(), items: SerializeSeq::new() }
    }

    pub fn serialize_field(&mut self, field: Value)
        ensures
            final(self).name() == old(self).name(),
            final(self).fields() == old(self).fields().push(field),
    {
        self.items.serialize_element(field);
    }

    pub fn end(self) -> (v: Value)
        ensures
            v@ == variant_node(self.name(), Node::Sequence(value::nodes(self.fields()))),
            value::value_marks(v) == variant_marks(
                Marks::Sequence(None, value::all_marks(self.fields())),
            ),
    {
        single_entry(self.variant.as_str(), self.items.end())
    }
}

// ---------------------------------------------------------------------------
// Mappings
// ---------------------------------------------------------------------------

/// A mapping in the making. Keys and values come in turn.
pub struct SerializeMap {
    map: Mapping,
    next_key: Option<Value>,
}

/// The fault of a value that no key came before.
pub open spec fn no_key() -> Fault {
    error::bare_fault(ErrorKind::Compose, "serialize_value called before serialize_key"@)
}

impl SerializeMap {
    /// The entries so far.
    pub closed spec fn entries(&self) -> Seq<(Node, Node)> {
        self.map@
    }

    /// The metadata of the entries so far.
    pub closed spec fn marks(&self) -> Seq<(Marks, Marks)> {
        value::marks_of(self.map)
    }

    /// The key that waits for its value.
    pub closed spec fn pending(&self) -> Option<Value> {
        self.next_key
    }

    pub fn new() -> (s: Self)
        ensures
            s.entries() == Seq::<(Node, Node)>::empty(),
            s.marks() == Seq::<(Marks, Marks)>::empty(),
            s.pending() is None,
    {
        Self { map: Mapping::new(), next_key: None }
    }

    pub fn serialize_key(&mut self, key: Value)
        ensures
            final(self).entries() == old(self).entries(),
            final(self).marks() == old(self).marks(),
            final(self).pending() == Some(key),
    {
        self.next_key = Some(key);
    }

    /// Takes the value of the last key, or what went wrong in making it. Either
    /// way the key is used up.
    pub fn serialize_value(&mut self, value: Result<Value, Error>) -> (res: Result<(), Error>)
        ensures
            final(self).pending() is None,
            match (old(self).pending(), value) {
                (None, _) => {
                    &&& res matches Err(e) && e@ == no_key()
                    &&& final(self).entries() == old(self).entries()
                    &&& final(self).marks() == old(self).marks()
                },
                (Some(_), Err(f)) => {
                    &&& res matches Err(e) && e == f
                    &&& final(self).entries() == old(self).entries()
                    &&& final(self).marks() == old(self).marks()
                },
                (Some(key), Ok(v)) => {
                    &&& res is Ok
                    &&& final(self).entries() == node::put(old(self).entries(), key@, v@)
                    &&& final(self).marks() == value::put_marks(
                        old(self).entries(),
                        old(self).marks(),
                        key@,
                        (value::value_marks(key), value::value_marks(v)),
                    )
                },
            },
    {
        match self.next_key.take() {
            None => Err(
                Error::new(ErrorKind::Compose, "serialize_value called before serialize_key"),
            ),
            Some(key) => match value {
                Err(e) => Err(e),
                Ok(v) => {
                    self.map.insert(key, v);
                    Ok(())
                },
            },
        }
    }

    pub fn end(self) -> (v: Value)
        ensures
            v@ == Node::Mapping(self.entries()),
            value::value_marks(v) == Marks::Mapping(None, self.marks()),
    {
        Value::mapping(self.map)
    }
}

/// A struct in the making: its field names are the keys.
pub struct SerializeStruct {
    map: Mapping,
}

impl View for SerializeStruct {
    type V = Seq<(Node, Node)>;

    closed spec fn view(&self) -> Seq<(Node, Node)> {
        self.map@
    }
}

impl SerializeStruct {
    /// The metadata of the fields so far.
    pub closed spec fn marks(&self) -> Seq<(Marks, Marks)> {
        value::marks_of(self.map)
    }

    pub fn new() -> (s: Self)
        ensures
            s@ == Seq::<(Node, Node)>::empty(),
            s.marks() == Seq::<(Marks, Marks)>::empty(),
    {
        Self { map: Mapping::new() }
    }

    pub fn serialize_field(&mut self, key: &str, value: Value)
        ensures
            final(self)@ == node::put(old(self)@, Node::Str(key@), value@),
            final(self).marks() == value::put_marks(
                old(self)@,
                old(self).marks(),
                Node::Str(key@),
                (Marks::Scalar(None), value::value_marks(value)),
            ),
    {
        self.map.insert(Value::string(key), value);
    }

    pub fn end(self) -> (v: Value)
        ensures
            v@ == Node::Mapping(self@),
            value::value_marks(v) == Marks::Mapping(None, self.marks()),
    {
        Value::mapping(self.map)
    }
}

/// A struct variant in the making.
pub struct SerializeStructVariant {
    variant: String,
    fields: SerializeStruct,
}

impl SerializeStructVariant {
    /// The name of the variant.
    pub closed spec fn name(&self) -> Seq<char> {
        self.variant@
    }

    /// The fields so far.
    pub closed spec fn entries(&self) -> Seq<(Node, Node)> {
        self.fields@
    }

    /// The metadata of the fields so far.
    pub closed spec fn marks(&self) -> Seq<(Marks, Marks)> {
        self.fields.marks()
    }

    pub fn new(variant: &str) -> (s: Self)
        ensures
            s.name() == variant@,
            s.entries() == Seq::<(Node, Node)>::empty(),
            s.marks() == Seq::<(Marks, Marks)>::empty(),
    {
        Self { variant: variant.to_string(), fields: SerializeStruct::new() }
    }

    pub fn serialize_field(&mut self, key: &str, value: Value)
        ensures
            final(self).name() == old(self).name(),
            final(self).entries() == node::put(old(self).entries(), Node::Str(key@), value@),
            final(self).marks() == value::put_marks(
                old(self).entries(),
                old(self).marks(),
                Node::Str(key@),
                (Marks::Scalar(None), value::value_marks(value)),
            ),
    {
        self.fields.serialize_field(key, value);
    }

    pub fn end(self) -> (v: Value)
        ensures
            v@ == variant_node(self.name(), Node::Mapping(self.entries())),
            value::value_marks(v) == variant_marks(Marks::Mapping(None, self.marks())),
    {
        single_entry(self.variant.as_str(), self.fields.end())
    }
}

// ---------------------------------------------------------------------------
// Laws
// ---------------------------------------------------------------------------

/// `had` with the entries from `i` on set one after the other.
pub open spec fn put_all(
    had: Seq<(Node, Node)>,
    entries: Seq<(Node, Node)>,
    i: int,
) -> Seq<(Node, Node)>
    decreases entries.len() - i,
{
    if 0 <= i < entries.len() {
        put_all(node::put(had, entries[i].0, entries[i].1), entries, i + 1)
    } else {
        had
    }
}

/// Setting the entries of a mapping one after the other gives the same mapping:
/// fields and keys keep their order.
pub proof fn law_entries_keep_their_order(entries: Seq<(Node, Node)>, i: int)
    requires
        node::distinct_keys(entries),
        0 <= i <= entries.len(),
    ensures
        put_all(entries.take(i), entries, i) == entries,
    decreases entries.len() - i,
{
    if i < entries.len() {
        let had = entries.take(i);
        node::lemma_place_from(had, entries[i].0, 0);
        if let Some(j) = node::place(had, entries[i].0) {
            assert(entries[j].0 == entries[i].0);
        }
        assert(node::put(had, entries[i].0, entries[i].1) == entries.take(i + 1));
        law_entries_keep_their_order(entries, i + 1);
    } else {
        assert(entries.take(i) == entries);
    }
}

} // verus!
