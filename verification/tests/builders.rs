use yaml2::error::{Error, ErrorKind};
use yaml2::meta::{Meta, ScalarStyle};
use yaml2::serde_support::de::{
    deserialize_enum, unit_variant, variant_payload, MapAccess, Payload,
};
use yaml2::serde_support::ser::{
    serialize_bytes, serialize_char, serialize_newtype_variant, serialize_u64, SerializeMap,
    SerializeSeq, SerializeStruct, SerializeStructVariant, SerializeTupleVariant,
};
use yaml2::value::{Mapping, Value, ValueData};

fn map(entries: Vec<(Value, Value)>) -> Value {
    let mut m = Mapping::new();
    for (k, v) in entries {
        m.insert(k, v);
    }
    Value::mapping(m)
}

fn s(text: &str) -> Value {
    Value::string(text)
}

fn i(n: i64) -> Value {
    Value::integer(n)
}

#[test]
fn unsigned_numbers_must_fit() {
    assert_eq!(serialize_u64(7).unwrap(), i(7));
    assert_eq!(serialize_u64(i64::MAX as u64).unwrap(), i(i64::MAX));
    let e = serialize_u64(i64::MAX as u64 + 1).unwrap_err();
    assert_eq!(e.kind(), ErrorKind::Compose);
    assert_eq!(e.message(), "u64 value exceeds i64 range");
}

#[test]
fn characters_and_bytes_become_values() {
    assert_eq!(serialize_char('\u{e9}'), s("\u{e9}"));
    assert_eq!(serialize_bytes(&[0, 255]), Value::sequence(vec![i(0), i(255)]));
    assert_eq!(serialize_bytes(&[]), Value::sequence(vec![]));
}

#[test]
fn sequences_are_built_in_order() {
    let mut b = SerializeSeq::new();
    b.serialize_element(i(1));
    b.serialize_element(s("x"));
    assert_eq!(b.end(), Value::sequence(vec![i(1), s("x")]));
}

#[test]
fn structs_keep_field_order() {
    let mut b = SerializeStruct::new();
    b.serialize_field("y", i(2));
    b.serialize_field("x", i(1));
    assert_eq!(b.end(), map(vec![(s("y"), i(2)), (s("x"), i(1))]));
}

#[test]
fn variants_are_single_entry_mappings() {
    assert_eq!(serialize_newtype_variant("N", i(9)), map(vec![(s("N"), i(9))]));
    let mut t = SerializeTupleVariant::new("T");
    t.serialize_field(i(1));
    t.serialize_field(i(2));
    assert_eq!(t.end(), map(vec![(s("T"), Value::sequence(vec![i(1), i(2)]))]));
    let mut v = SerializeStructVariant::new("S");
    v.serialize_field("a", i(1));
    assert_eq!(v.end(), map(vec![(s("S"), map(vec![(s("a"), i(1))]))]));
}

#[test]
fn maps_take_keys_and_values_in_turn() {
    let mut b = SerializeMap::new();
    let e = b.serialize_value(Ok(i(1))).unwrap_err();
    assert_eq!(e.message(), "serialize_value called before serialize_key");
    b.serialize_key(s("a"));
    assert!(b.serialize_value(Ok(i(1))).is_ok());
    b.serialize_key(s("lost"));
    let failed = Error::new(ErrorKind::Compose, "broken");
    assert_eq!(b.serialize_value(Err(failed)).unwrap_err().message(), "broken");
    assert!(b.serialize_value(Ok(i(2))).is_err());
    b.serialize_key(s("b"));
    assert!(b.serialize_value(Ok(i(2))).is_ok());
    assert_eq!(b.end(), map(vec![(s("a"), i(1)), (s("b"), i(2))]));
}

#[test]
fn enums_are_taken_apart() {
    let (name, payload) = deserialize_enum(s("Unit")).unwrap();
    assert_eq!((name.as_str(), payload), ("Unit", None));
    let (name, payload) = deserialize_enum(serialize_newtype_variant("N", i(9))).unwrap();
    assert_eq!((name.as_str(), payload), ("N", Some(i(9))));
    let single = "expected a single-key mapping for an enum";
    assert_eq!(deserialize_enum(map(vec![])).unwrap_err().message(), single);
    let two = map(vec![(s("a"), i(1)), (s("b"), i(2))]);
    assert_eq!(deserialize_enum(two).unwrap_err().message(), single);
    let e = deserialize_enum(map(vec![(i(1), i(2))])).unwrap_err();
    assert_eq!(e.message(), "enum variant key must be a string");
    let e = deserialize_enum(i(1)).unwrap_err();
    assert_eq!(e.message(), "expected a string or single-key mapping for an enum");
}

#[test]
fn payloads_are_checked() {
    assert!(unit_variant(None).is_ok());
    let e = unit_variant(Some(i(1))).unwrap_err();
    assert_eq!(e.message(), "unexpected payload for a unit variant");
    assert_eq!(variant_payload(Some(i(1)), Payload::Newtype).unwrap(), i(1));
    let e = variant_payload(None, Payload::Newtype).unwrap_err();
    assert_eq!(e.message(), "expected a value for a newtype variant");
    let e = variant_payload(None, Payload::Tuple).unwrap_err();
    assert_eq!(e.message(), "expected a sequence for a tuple variant");
    let e = variant_payload(None, Payload::Struct).unwrap_err();
    assert_eq!(e.message(), "expected a mapping for a struct variant");
}

#[test]
fn mappings_are_handed_out_in_order() {
    let mut m = Mapping::new();
    m.insert(s("a"), i(1));
    m.insert(s("b"), i(2));
    let mut access = MapAccess::new(m);
    assert_eq!(access.len(), 2);
    assert_eq!(access.next_value().unwrap_err().message(), "next_value before next_key");
    assert_eq!(access.next_key(), Some(s("a")));
    assert_eq!(access.next_value().unwrap(), i(1));
    assert!(access.next_value().is_err());
    assert_eq!(access.next_key(), Some(s("b")));
    assert_eq!(access.len(), 0);
    assert_eq!(access.next_key(), None);
    assert_eq!(access.next_value().unwrap(), i(2));
}

// --- Mappings ---

#[test]
fn insert_returns_what_it_replaces() {
    let mut m = Mapping::new();
    assert!(m.is_empty());
    assert_eq!(m.insert(s("a"), i(1)), None);
    assert_eq!(m.insert(s("b"), i(2)), None);
    assert_eq!(m.insert(s("a"), i(3)), Some(i(1)));
    assert_eq!(m.len(), 2);
    assert_eq!(m.get(&s("a")), Some(&i(3)));
    assert_eq!(m.get(&s("c")), None);
    assert!(m.contains_key(&s("b")));
    assert!(!m.contains_key(&i(1)));
    let keys: Vec<&str> = m.iter().iter().map(|(k, _)| k.as_str().unwrap()).collect();
    assert_eq!(keys, vec!["a", "b"]);
    assert_eq!(m.into_iter(), vec![(s("a"), i(3)), (s("b"), i(2))]);
}

#[test]
fn values_can_be_changed_in_place() {
    let mut m = Mapping::new();
    m.insert(s("a"), i(1));
    m.insert(s("b"), i(2));
    if let Some(v) = m.get_mut(&s("b")) {
        *v = i(20);
    }
    assert!(m.get_mut(&s("c")).is_none());
    for (k, v) in m.iter_mut() {
        if k.as_str() == Some("a") {
            *v = s("one");
        }
    }
    assert_eq!(Value::mapping(m), map(vec![(s("a"), s("one")), (s("b"), i(20))]));
}

#[test]
fn any_value_can_be_a_key() {
    let mut m = Mapping::new();
    m.insert(Value::null(), i(0));
    m.insert(i(1), i(1));
    m.insert(Value::float(1f64.to_bits()), i(2));
    m.insert(s("1"), i(3));
    m.insert(Value::sequence(vec![i(1)]), i(4));
    m.insert(map(vec![(i(1), i(1))]), i(5));
    m.insert(Value::bool(true), i(6));
    assert_eq!(m.len(), 7);
    assert_eq!(m.get(&Value::sequence(vec![i(1)])), Some(&i(4)));
    assert_eq!(m.get(&map(vec![(i(1), i(1))])), Some(&i(5)));
    assert_eq!(m.get(&map(vec![])), None);
}

#[test]
fn copies_keep_data_and_metadata() {
    let mut meta = Meta::default();
    meta.style = ScalarStyle::Folded;
    meta.anchor = Some("x".to_string());
    meta.comments.leading.push("note".to_string());
    let v = Value::sequence(vec![s("a"), map(vec![(s("k"), i(1))])]).with_meta(meta.clone());
    let copy = v.clone();
    assert_eq!(copy, v);
    assert_eq!(copy.meta(), Some(&meta));
    let data: ValueData = v.data().clone();
    assert_eq!(Value::new(data), v);
}

#[test]
fn data_can_be_changed_in_place() {
    let mut v = Value::sequence(vec![i(1)]).with_meta(Meta::default());
    if let ValueData::Sequence(items) = v.data_mut() {
        items.push(i(2));
    }
    assert_eq!(v, Value::sequence(vec![i(1), i(2)]));
    assert!(v.meta().is_some());
    *v.data_mut() = ValueData::Null;
    assert!(v.is_null());
}

#[test]
fn equal_values_have_equal_digests() {
    let a = map(vec![(s("k"), Value::sequence(vec![i(-1), Value::bool(true)]))]);
    let b = a.clone().with_meta(Meta::default());
    assert_eq!(a, b);
    assert_eq!(a.digest(), b.digest());
    assert_eq!(a.data().digest(), a.digest());
    assert_eq!(a.as_mapping().unwrap().digest(), a.digest());
    assert_eq!(s("ab").digest(), vec![4, 2, 97, 98]);
}

fn noted(v: Value) -> Value {
    v.with_meta(Meta { anchor: Some("x".to_string()), ..Meta::default() })
}

fn anchor(v: &Value) -> Option<&str> {
    v.meta().and_then(|m| m.anchor.as_deref())
}

#[test]
fn builders_attach_no_metadata_and_keep_what_is_there() {
    assert!(serialize_u64(7).unwrap().meta().is_none());
    assert!(serialize_char('c').meta().is_none());
    let bytes = serialize_bytes(&[1, 2]);
    assert!(bytes.meta().is_none());
    assert!(bytes.as_sequence().unwrap().iter().all(|v| v.meta().is_none()));

    let v = serialize_newtype_variant("A", noted(i(1)));
    assert!(v.meta().is_none());
    let pairs = v.as_mapping().unwrap().iter();
    assert!(pairs[0].0.meta().is_none());
    assert_eq!(anchor(pairs[0].1), Some("x"));

    let mut b = SerializeSeq::new();
    b.serialize_element(noted(i(1)));
    let v = b.end();
    assert!(v.meta().is_none());
    assert_eq!(anchor(&v.as_sequence().unwrap()[0]), Some("x"));

    let mut b = SerializeMap::new();
    b.serialize_key(noted(s("k")));
    b.serialize_value(Ok(noted(i(1)))).unwrap();
    let v = b.end();
    assert!(v.meta().is_none());
    let pairs = v.as_mapping().unwrap().iter();
    assert_eq!((anchor(pairs[0].0), anchor(pairs[0].1)), (Some("x"), Some("x")));

    let mut b = SerializeStructVariant::new("A");
    b.serialize_field("f", noted(i(1)));
    let (_, payload) = deserialize_enum(b.end()).unwrap();
    let payload = payload.unwrap();
    assert!(payload.meta().is_none());
    let pairs = payload.as_mapping().unwrap().iter();
    assert!(pairs[0].0.meta().is_none());
    assert_eq!(anchor(pairs[0].1), Some("x"));

    let mut b = SerializeTupleVariant::new("A");
    b.serialize_field(noted(i(1)));
    let (_, payload) = deserialize_enum(b.end()).unwrap();
    assert_eq!(anchor(&payload.unwrap().as_sequence().unwrap()[0]), Some("x"));
}

#[test]
fn parts_are_handed_out_with_their_metadata() {
    let v = map(vec![(noted(s("A")), noted(i(1)))]);
    let (name, payload) = deserialize_enum(v.clone()).unwrap();
    assert_eq!(name, "A");
    assert_eq!(anchor(&payload.unwrap()), Some("x"));

    let mut access = match v.into_data() {
        ValueData::Mapping(m) => MapAccess::new(m),
        _ => panic!("a mapping"),
    };
    assert_eq!(anchor(&access.next_key().unwrap()), Some("x"));
    assert_eq!(anchor(&access.next_value().unwrap()), Some("x"));
}

#[test]
fn conversions_attach_no_metadata() {
    assert!(Value::from(true).meta().is_none());
    assert!(Value::from(1_i64).meta().is_none());
    assert!(Value::from("s").meta().is_none());
    assert!(Value::from("s".to_string()).meta().is_none());
}
