use yaml2::api;
use yaml2::floats::FloatTable;
use yaml2::value::Value;

fn parse(input: &str) -> Value {
    api::parse(input, &FloatTable::new()).unwrap()
}

#[test]
fn scalar_string_document() {
    assert_eq!(parse("hello\n").as_str(), Some("hello"));
}

#[test]
fn scalar_int_document() {
    assert_eq!(parse("42\n").as_int(), Some(42));
}

#[test]
fn scalar_bool_document() {
    assert_eq!(parse("true\n").as_bool(), Some(true));
}

#[test]
fn empty_explicit_document_is_null() {
    assert!(parse("---\n").is_null());
}

#[test]
fn empty_input_is_null() {
    assert!(parse("").is_null());
}

#[test]
fn quoted_scalar_stays_string() {
    assert_eq!(parse("\"42\"\n").as_str(), Some("42"));
}

#[test]
fn multiple_documents_compose_each() {
    let docs = api::parse_documents("--- a\n--- b\n", &FloatTable::new()).unwrap();
    assert_eq!(docs.len(), 2);
    assert_eq!(docs[0].as_str(), Some("a"));
    assert_eq!(docs[1].as_str(), Some("b"));
}

#[test]
fn parse_rejects_multiple_documents() {
    let err = api::parse("--- a\n--- b\n", &FloatTable::new()).unwrap_err();
    assert_eq!(err.kind(), yaml2::error::ErrorKind::Compose);
}

#[test]
fn flow_sequence_of_scalars() {
    let v = parse("[1, 2, 3]\n");
    let items = v.as_sequence().unwrap();
    assert_eq!(items.len(), 3);
    assert_eq!(items[0].as_int(), Some(1));
    assert_eq!(items[2].as_int(), Some(3));
}

#[test]
fn block_sequence_of_scalars() {
    let v = parse("- a\n- b\n");
    let items = v.as_sequence().unwrap();
    assert_eq!(items.len(), 2);
    assert_eq!(items[0].as_str(), Some("a"));
    assert_eq!(items[1].as_str(), Some("b"));
}

#[test]
fn nested_sequence() {
    let v = parse("- - 1\n");
    let outer = v.as_sequence().unwrap();
    assert_eq!(outer.len(), 1);
    let inner = outer[0].as_sequence().unwrap();
    assert_eq!(inner[0].as_int(), Some(1));
}

#[test]
fn empty_flow_sequence_is_empty() {
    assert_eq!(parse("[]\n").as_sequence().unwrap().len(), 0);
}
