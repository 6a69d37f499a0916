use yaml2::meta::{Meta, ScalarStyle};
use yaml2::options::Schema;
use yaml2::value::{Mapping, Number, Value, ValueData};

fn float(f: f64) -> Value {
    Value::float(f.to_bits())
}

fn number(n: Number) -> f64 {
    match n {
        Number::Float(bits) => f64::from_bits(bits),
        Number::Int(i) => i as f64,
    }
}

#[test]
fn scalar_constructors_build_expected_data() {
    assert!(matches!(Value::null().data(), ValueData::Null));
    assert!(matches!(Value::bool(true).data(), ValueData::Bool(true)));
    assert!(matches!(Value::integer(7).data(), ValueData::Int(7)));
    assert!(matches!(Value::string("hi").data(), ValueData::String(s) if s == "hi"));
}

#[test]
fn equality_ignores_metadata() {
    let mut a = Value::integer(1);
    a.meta_mut(); // force-allocate metadata
    let b = Value::integer(1);
    assert_eq!(a, b);
}

#[test]
fn distinct_scalars_are_not_equal() {
    assert_ne!(Value::integer(1), Value::integer(2));
    assert_ne!(Value::integer(1), Value::string("1"));
}

#[test]
fn float_zero_signs_are_distinct_keys() {
    // Consistent Eq/Hash: +0.0 and -0.0 differ by bits and must not collide.
    assert_ne!(float(0.0), float(-0.0));
}

#[test]
fn cross_variant_ordering_follows_rank() {
    // Null < Bool < Int < Float < String < Sequence < Mapping
    assert!(Value::null() < Value::bool(false));
    assert!(Value::bool(true) < Value::integer(0));
    assert!(Value::integer(99) < float(0.0));
    assert!(float(1.0) < Value::string("a"));
    assert!(Value::string("z") < Value::sequence(vec![]));
}

#[test]
fn sequence_ordering_is_lexicographic() {
    let a = Value::sequence(vec![Value::integer(1), Value::integer(2)]);
    let b = Value::sequence(vec![Value::integer(1), Value::integer(3)]);
    assert!(a < b);
}

#[test]
fn mapping_equality_is_order_sensitive() {
    let mut m1 = Mapping::new();
    m1.insert(Value::string("a"), Value::integer(1));
    m1.insert(Value::string("b"), Value::integer(2));
    let mut m2 = Mapping::new();
    m2.insert(Value::string("b"), Value::integer(2));
    m2.insert(Value::string("a"), Value::integer(1));
    // Same entries, different order -> not equal (deliberate).
    assert_ne!(Value::mapping(m1), Value::mapping(m2));
}

#[test]
fn mapping_preserves_insertion_order() {
    let mut m = Mapping::new();
    m.insert(Value::string("b"), Value::integer(2));
    m.insert(Value::string("a"), Value::integer(1));
    m.insert(Value::string("c"), Value::integer(3));

    let keys: Vec<&str> = m.iter().iter().map(|(k, _)| k.as_str().unwrap()).collect();
    assert_eq!(keys, ["b", "a", "c"]);
}

#[test]
fn mapping_get_and_len() {
    let mut m = Mapping::new();
    assert!(m.is_empty());
    m.insert(Value::string("k"), Value::integer(9));
    assert_eq!(m.len(), 1);
    assert_eq!(m.get(&Value::string("k")), Some(&Value::integer(9)));
    assert_eq!(m.get(&Value::string("missing")), None);
}

#[test]
fn accessors_return_typed_views() {
    assert!(Value::null().is_null());
    assert_eq!(Value::bool(true).as_bool(), Some(true));
    assert_eq!(Value::integer(5).as_int(), Some(5));
    assert_eq!(Value::integer(5).as_float().map(number), Some(5.0));
    assert_eq!(float(1.5).as_float().map(number), Some(1.5));
    assert_eq!(Value::string("x").as_str(), Some("x"));
    assert_eq!(Value::integer(5).as_str(), None);
}

#[test]
fn sequence_and_mapping_accessors() {
    let seq = Value::sequence(vec![Value::integer(1), Value::integer(2)]);
    assert_eq!(seq.as_sequence().unwrap().len(), 2);

    let mut m = Mapping::new();
    m.insert(Value::string("k"), Value::integer(1));
    let map = Value::mapping(m);
    assert_eq!(map.as_mapping().unwrap().len(), 1);
}

#[test]
fn from_conversions() {
    assert_eq!(Value::from(true), Value::bool(true));
    assert_eq!(Value::from(3_i64), Value::integer(3));
    let held = Value::float(2.5_f64.to_bits()).as_float();
    assert_eq!(held, Some(Number::Float(0x4004_0000_0000_0000)));
    assert_eq!(Value::from("s"), Value::string("s"));
    assert_eq!(Value::from(String::from("s")), Value::string("s"));
}

#[test]
fn meta_is_absent_until_requested() {
    let v = Value::integer(1);
    assert!(v.meta().is_none());
}

#[test]
fn meta_mut_lazily_allocates() {
    let mut v = Value::integer(1);
    v.meta_mut().anchor = Some("a1".to_string());
    assert_eq!(v.meta().unwrap().anchor.as_deref(), Some("a1"));
}

#[test]
fn with_meta_sets_and_take_meta_removes() {
    let meta = Meta {
        tag: Some("!!str".to_string()),
        ..Meta::default()
    };
    let mut v = Value::string("x").with_meta(meta);
    assert!(v.meta().is_some());
    let taken = v.take_meta().unwrap();
    assert_eq!(taken.tag.as_deref(), Some("!!str"));
    assert!(v.meta().is_none());
}

#[test]
fn from_scalar_resolves_per_schema() {
    let core = Value::from_scalar("0777", ScalarStyle::Plain, Schema::Core1_2, 0);
    assert_eq!(core.as_int(), Some(777));

    let y11 = Value::from_scalar("0777", ScalarStyle::Plain, Schema::Yaml1_1, 0);
    assert_eq!(y11.as_int(), Some(511));

    let quoted = Value::from_scalar("true", ScalarStyle::SingleQuoted, Schema::Core1_2, 0);
    assert_eq!(quoted.as_str(), Some("true"));
}
