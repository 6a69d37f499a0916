use yaml2::api;
use yaml2::emitter::finite_floats;
use yaml2::floats::FloatTable;
use yaml2::value::Value;

/// The texts of the finite floats of a value.
fn shown(value: &Value) -> FloatTable {
    let mut floats = FloatTable::new();
    for bits in finite_floats(value) {
        floats.set_text(bits, format!("{}", f64::from_bits(bits)));
    }
    floats
}

fn to_string(value: &Value) -> String {
    api::to_string(value, &shown(value)).unwrap()
}

/// parse -> emit -> parse must preserve the value.
fn roundtrip(input: &str) {
    let v = api::parse(input, &FloatTable::new()).unwrap();
    let text = api::to_string(&v, &shown(&v)).unwrap();
    let v2 = api::parse(&text, &FloatTable::new()).unwrap();
    assert_eq!(v, v2, "roundtrip changed value; emitted:\n{text}");
}

#[test]
fn emits_plain_string() {
    assert_eq!(to_string(&Value::string("hello")), "hello\n");
}

#[test]
fn emits_int_and_null_and_bool() {
    assert_eq!(to_string(&Value::integer(42)), "42\n");
    assert_eq!(to_string(&Value::null()), "null\n");
    assert_eq!(to_string(&Value::bool(true)), "true\n");
}

#[test]
fn float_always_has_point() {
    assert_eq!(to_string(&Value::float(5.0_f64.to_bits())), "5.0\n");
    assert_eq!(to_string(&Value::float(1.5_f64.to_bits())), "1.5\n");
    assert_eq!(to_string(&Value::float(f64::INFINITY.to_bits())), ".inf\n");
}

#[test]
fn quotes_strings_that_would_change_type() {
    assert_eq!(to_string(&Value::string("42")), "\"42\"\n");
    assert_eq!(to_string(&Value::string("true")), "\"true\"\n");
    assert_eq!(to_string(&Value::string("null")), "\"null\"\n");
    assert_eq!(to_string(&Value::string("")), "\"\"\n");
}

#[test]
fn quotes_structurally_hazardous_strings() {
    assert_eq!(to_string(&Value::string("a: b")), "\"a: b\"\n");
    assert_eq!(to_string(&Value::string("# c")), "\"# c\"\n");
    assert_eq!(to_string(&Value::string(" x")), "\" x\"\n");
}

#[test]
fn flow_collections_roundtrip() {
    roundtrip("[1, 2, 3]\n");
    roundtrip("{a: 1, b: 2}\n");
    roundtrip("a: 1\nb: 2\n");
    roundtrip("- a\n- b\n");
}

#[test]
fn scalar_strings_roundtrip() {
    roundtrip("plain text\n");
    roundtrip("\"quoted: value\"\n");
    roundtrip("\"line\\nbreak\"\n");
}
