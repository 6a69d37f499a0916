//! Taking values apart.

use crate::error;
use crate::error::{Error, ErrorKind, Fault};
use crate::node::Node;
use crate::serde_support::ser;
use crate::value;
use crate::value::{Marks, Value, ValueData};
use vstd::prelude::*;

verus! {

/// A fault without a location.
pub open spec fn shape_fault(message: Seq<char>) -> Fault {
    error::bare_fault(ErrorKind::Compose, message)
}

// ---------------------------------------------------------------------------
// Enums
// ---------------------------------------------------------------------------

/// The variant that a value names, and its payload: a string names a variant
/// without payload, a mapping of one entry one with.
pub open spec fn variant_of(n: Node) -> Result<(Seq<char>, Option<Node>), Fault> {
    match n {
        Node::Str(name) => Ok((name, None)),
        Node::Mapping(entries) => if entries.len() != 1 {
            Err(shape_fault("expected a single-key mapping for an enum"@))
        } else {
            match entries[0].0 {
                Node::Str(name) => Ok((name, Some(entries[0].1))),
                _ => Err(shape_fault("enum variant key must be a string"@)),
            }
        },
        _ => Err(shape_fault("expected a string or single-key mapping for an enum"@)),
    }
}

/// The payload of a variant, if it has one.
pub open spec fn payload_node(payload: Option<Value>) -> Option<Node> {
    match payload {
        Some(v) => Some(v@),
        None => None,
    }
}

/// The metadata of the payload of a variant, if it has one.
pub open spec fn payload_marks(payload: Option<Value>) -> Option<Marks> {
    match payload {
        Some(v) => Some(value::value_marks(v)),
        None => None,
    }
}

/// The metadata of the payload that a value with the given metadata has as a variant.
pub open spec fn variant_marks(marks: Marks) -> Option<Marks> {
    match marks {
        Marks::Mapping(_, entries) => Some(entries[0].1),
        _ => None,
    }
}

/// Takes the value of an enum apart. The payload keeps its metadata.
pub fn deserialize_enum(v: Value) -> (res: Result<(String, Option<Value>), Error>)
    ensures
        match variant_of(v@) {
            Ok((name, payload)) => {
                &&& res matches Ok(parts)
                &&& parts.0@ == name
                &&& payload_node(parts.1) == payload
                &&& payload_marks(parts.1) == variant_marks(value::value_marks(v))
            },
            Err(f) => res matches Err(e) && e@ == f,
        },
{
    match v.into_data() {
        ValueData::String(variant) => Ok((variant, None)),
        ValueData::Mapping(map) => {
            let mut pairs = map.into_iter();
            let ghost entries = map@;
            if pairs.len() != 1 {
                return Err(
                    Error::new(ErrorKind::Compose, "expected a single-key mapping for an enum"),
                );
            }
            assert(entries[0] == (pairs@[0].0@, pairs@[0].1@));
            assert(value::marks_of(map)[0] == (
                value::value_marks(pairs@[0].0),
                value::value_marks(pairs@[0].1),
            ));
            match pairs.pop() {
                Some((key, payload)) => match key.into_data() {
                    ValueData::String(variant) => Ok((variant, Some(payload))),
                    _ => Err(Error::new(ErrorKind::Compose, "enum variant key must be a string")),
                },
                None => Err(
                    Error::new(ErrorKind::Compose, "expected a single-key mapping for an enum"),
                ),
            }
        },
        _ => Err(
            Error::new(
                ErrorKind::Compose,
                "expected a string or single-key mapping for an enum",
            ),
        ),
    }
}

/// A unit variant has no payload.
pub fn unit_variant(payload: Option<Value>) -> (res: Result<(), Error>)
    ensures
        match payload {
            None => res is Ok,
            Some(_) => res matches Err(e) && e@ == shape_fault(
                "unexpected payload for a unit variant"@,
            ),
        },
{
    match payload {
        None => Ok(()),
        Some(_) => Err(Error::new(ErrorKind::Compose, "unexpected payload for a unit variant")),
    }
}

/// What kind of payload a variant asks for.
#[derive(Debug, Clone, Copy, PartialEq, Eq, Structural)]
pub enum Payload {
    Newtype,
    Tuple,
    Struct,
}

/// The wording of the fault of a payload that is missing.
pub open spec fn missing_payload(kind: Payload) -> Seq<char> {
    match kind {
        Payload::Newtype => "expected a value for a newtype variant"@,
        Payload::Tuple => "expected a sequence for a tuple variant"@,
        Payload::Struct => "expected a mapping for a struct variant"@,
    }
}

/// The payload of a variant that asks for one.
pub fn variant_payload(payload: Option<Value>, kind: Payload) -> (res: Result<Value, Error>)
    ensures
        match payload {
            Some(v) => res matches Ok(r) && r == v,
            None => res matches Err(e) && e@ == shape_fault(missing_payload(kind)),
        },
{
    match payload {
        Some(v) => Ok(v),
        None => Err(
            match kind {
                Payload::Newtype => Error::new(
                    ErrorKind::Compose,
                    "expected a value for a newtype variant",
                ),
                Payload::Tuple => Error::new(
                    ErrorKind::Compose,
                    "expected a sequence for a tuple variant",
                ),
                Payload::Struct => Error::new(
                    ErrorKind::Compose,
                    "expected a mapping for a struct variant",
                ),
            },
        ),
    }
}

// ---------------------------------------------------------------------------
// Mappings
// ---------------------------------------------------------------------------

/// A mapping that is handed out entry by entry: each key, then its value.
pub struct MapAccess {
    /// The entries that are left, the next one last.
    left: Vec<(Value, Value)>,
    value: Option<Value>,
}

impl MapAccess {
    /// The entries whose keys are still to come.
    pub closed spec fn entries(&self) -> Seq<(Value, Value)> {
        self.left@.reverse()
    }

    /// The value whose key was handed out last.
    pub closed spec fn pending(&self) -> Option<Value> {
        self.value
    }

    pub fn new(map: value::Mapping) -> (a: Self)
        ensures
            value::pair_nodes(a.entries()) == map@,
            value::pair_marks(a.entries()) == value::marks_of(map),
            a.pending() is None,
    {
        let mut pairs = map.into_iter();
        let ghost entries = pairs@;
        let mut left: Vec<(Value, Value)> = Vec::new();
        while pairs.len() > 0
            invariant
                pairs@ + left@.reverse() == entries,
            decreases pairs.len(),
        {
            let ghost before = (pairs@, left@);
            if let Some(pair) = pairs.pop() {
                left.push(pair);
                proof {
                    assert(left@.reverse() == seq![pair] + before.1.reverse());
                    assert(before.0 == pairs@.push(pair));
                    assert(pairs@ + left@.reverse() == before.0 + before.1.reverse());
                }
            }
        }
        assert(pairs@ + left@.reverse() == left@.reverse());
        Self { left, value: None }
    }

    /// The next key; its value waits to be asked for.
    pub fn next_key(&mut self) -> (key: Option<Value>)
        ensures
            if old(self).entries().len() == 0 {
                &&& key is None
                &&& final(self).entries() == old(self).entries()
                &&& final(self).pending() == old(self).pending()
            } else {
                &&& key == Some(old(self).entries()[0].0)
                &&& final(self).entries() == old(self).entries().drop_first()
                &&& final(self).pending() == Some(old(self).entries()[0].1)
            },
    {
        let ghost before = self.left@;
        match self.left.pop() {
            None => None,
            Some((key, value)) => {
                self.value = Some(value);
                assert(before.reverse()[0] == (key, value));
                assert(self.left@.reverse() == before.reverse().drop_first());
                Some(key)
            },
        }
    }

    /// The value of the last key.
    pub fn next_value(&mut self) -> (res: Result<Value, Error>)
        ensures
            final(self).entries() == old(self).entries(),
            final(self).pending() is None,
            match old(self).pending() {
                Some(waiting) => res matches Ok(v) && v == waiting,
                None => res matches Err(e) && e@ == shape_fault("next_value before next_key"@),
            },
    {
        match self.value.take() {
            Some(v) => Ok(v),
            None => Err(Error::new(ErrorKind::Compose, "next_value before next_key")),
        }
    }

    /// How many keys are still to come.
    pub fn len(&self) -> (n: usize)
        ensures
            n == self.entries().len(),
    {
        self.left.len()
    }
}

// ---------------------------------------------------------------------------
// Laws
// ---------------------------------------------------------------------------

/// A variant with a payload is taken apart into what it was built from, and so is
/// one without, which is its name.
pub proof fn law_variants_are_read_back(variant: Seq<char>, payload: Node)
    ensures
        variant_of(ser::variant_node(variant, payload)) == Ok::<(Seq<char>, Option<Node>), Fault>(
            (variant, Some(payload)),
        ),
        variant_of(Node::Str(variant)) == Ok::<(Seq<char>, Option<Node>), Fault>((variant, None)),
{
}

/// A value names a variant exactly where it is a string, or a mapping of one entry whose key
/// is a string. The string is the name, and the value of the entry is the payload.
pub proof fn law_variants_are_strings_or_single_entries(n: Node)
    ensures
        variant_of(n) is Ok <==> n is Str || (n matches Node::Mapping(entries) && entries.len() == 1
            && entries[0].0 is Str),
        variant_of(n) matches Ok((name, payload)) ==> match payload {
            None => n == Node::Str(name),
            Some(p) => n matches Node::Mapping(entries) && entries[0] == (Node::Str(name), p),
        },
        variant_of(n) matches Err(f) ==> f.kind == ErrorKind::Compose && f.span is None,
{
}

} // verus!
