use yaml2::error::ErrorKind;
use yaml2::event::EventKind;
use yaml2::meta::ScalarStyle;
use yaml2::options::ParseOptions;
use yaml2::parser::{parse_events, Parser};

fn kinds(input: &str) -> Vec<EventKind> {
    parse_events(input, &ParseOptions::default())
        .unwrap()
        .into_iter()
        .map(|e| e.kind)
        .collect()
}

#[test]
fn parser_empty_input_is_stream_start_then_end() {
    assert_eq!(
        kinds(""),
        vec![EventKind::StreamStart, EventKind::StreamEnd]
    );
}

#[test]
fn comment_only_is_stream_start_then_end() {
    assert_eq!(
        kinds("# just a comment\n"),
        vec![EventKind::StreamStart, EventKind::StreamEnd]
    );
}

#[test]
fn parser_pull_api_drains_events() {
    let mut p = Parser::new("", &ParseOptions::default()).unwrap();
    assert_eq!(p.next_event().map(|e| e.kind), Some(EventKind::StreamStart));
    assert_eq!(p.next_event().map(|e| e.kind), Some(EventKind::StreamEnd));
    assert_eq!(p.next_event(), None);
}

#[test]
fn bare_scalar_document() {
    assert_eq!(
        kinds("hello\n"),
        vec![
            EventKind::StreamStart,
            EventKind::DocumentStart,
            EventKind::Scalar {
                value: "hello".to_string(),
                style: ScalarStyle::Plain,
                anchor: None,
                tag: None
            },
            EventKind::DocumentEnd,
            EventKind::StreamEnd,
        ]
    );
}

#[test]
fn explicit_document_marker() {
    assert_eq!(
        kinds("--- hello\n"),
        vec![
            EventKind::StreamStart,
            EventKind::DocumentStart,
            EventKind::Scalar {
                value: "hello".to_string(),
                style: ScalarStyle::Plain,
                anchor: None,
                tag: None
            },
            EventKind::DocumentEnd,
            EventKind::StreamEnd,
        ]
    );
}

#[test]
fn two_documents() {
    assert_eq!(
        kinds("--- a\n--- b\n"),
        vec![
            EventKind::StreamStart,
            EventKind::DocumentStart,
            EventKind::Scalar {
                value: "a".to_string(),
                style: ScalarStyle::Plain,
                anchor: None,
                tag: None
            },
            EventKind::DocumentEnd,
            EventKind::DocumentStart,
            EventKind::Scalar {
                value: "b".to_string(),
                style: ScalarStyle::Plain,
                anchor: None,
                tag: None
            },
            EventKind::DocumentEnd,
            EventKind::StreamEnd,
        ]
    );
}

#[test]
fn alias_node() {
    assert_eq!(
        kinds("*x\n"),
        vec![
            EventKind::StreamStart,
            EventKind::DocumentStart,
            EventKind::Alias("x".to_string()),
            EventKind::DocumentEnd,
            EventKind::StreamEnd,
        ]
    );
}

#[test]
fn block_sequence() {
    assert_eq!(
        kinds("- a\n- b\n"),
        vec![
            EventKind::StreamStart,
            EventKind::DocumentStart,
            EventKind::SequenceStart {
                anchor: None,
                tag: None
            },
            EventKind::Scalar {
                value: "a".to_string(),
                style: ScalarStyle::Plain,
                anchor: None,
                tag: None
            },
            EventKind::Scalar {
                value: "b".to_string(),
                style: ScalarStyle::Plain,
                anchor: None,
                tag: None
            },
            EventKind::SequenceEnd,
            EventKind::DocumentEnd,
            EventKind::StreamEnd,
        ]
    );
}

#[test]
fn parser_nested_block_sequence() {
    assert_eq!(
        kinds("- - a\n"),
        vec![
            EventKind::StreamStart,
            EventKind::DocumentStart,
            EventKind::SequenceStart {
                anchor: None,
                tag: None
            },
            EventKind::SequenceStart {
                anchor: None,
                tag: None
            },
            EventKind::Scalar {
                value: "a".to_string(),
                style: ScalarStyle::Plain,
                anchor: None,
                tag: None
            },
            EventKind::SequenceEnd,
            EventKind::SequenceEnd,
            EventKind::DocumentEnd,
            EventKind::StreamEnd,
        ]
    );
}

#[test]
fn block_mapping() {
    assert_eq!(
        kinds("a: 1\nb: 2\n"),
        vec![
            EventKind::StreamStart,
            EventKind::DocumentStart,
            EventKind::MappingStart {
                anchor: None,
                tag: None
            },
            EventKind::Scalar {
                value: "a".to_string(),
                style: ScalarStyle::Plain,
                anchor: None,
                tag: None
            },
            EventKind::Scalar {
                value: "1".to_string(),
                style: ScalarStyle::Plain,
                anchor: None,
                tag: None
            },
            EventKind::Scalar {
                value: "b".to_string(),
                style: ScalarStyle::Plain,
                anchor: None,
                tag: None
            },
            EventKind::Scalar {
                value: "2".to_string(),
                style: ScalarStyle::Plain,
                anchor: None,
                tag: None
            },
            EventKind::MappingEnd,
            EventKind::DocumentEnd,
            EventKind::StreamEnd,
        ]
    );
}

#[test]
fn nested_block_mapping() {
    assert_eq!(
        kinds("outer:\n  inner: v\n"),
        vec![
            EventKind::StreamStart,
            EventKind::DocumentStart,
            EventKind::MappingStart {
                anchor: None,
                tag: None
            },
            EventKind::Scalar {
                value: "outer".to_string(),
                style: ScalarStyle::Plain,
                anchor: None,
                tag: None
            },
            EventKind::MappingStart {
                anchor: None,
                tag: None
            },
            EventKind::Scalar {
                value: "inner".to_string(),
                style: ScalarStyle::Plain,
                anchor: None,
                tag: None
            },
            EventKind::Scalar {
                value: "v".to_string(),
                style: ScalarStyle::Plain,
                anchor: None,
                tag: None
            },
            EventKind::MappingEnd,
            EventKind::MappingEnd,
            EventKind::DocumentEnd,
            EventKind::StreamEnd,
        ]
    );
}

#[test]
fn parser_mapping_in_sequence_entry() {
    assert_eq!(
        kinds("- k: v\n"),
        vec![
            EventKind::StreamStart,
            EventKind::DocumentStart,
            EventKind::SequenceStart {
                anchor: None,
                tag: None
            },
            EventKind::MappingStart {
                anchor: None,
                tag: None
            },
            EventKind::Scalar {
                value: "k".to_string(),
                style: ScalarStyle::Plain,
                anchor: None,
                tag: None
            },
            EventKind::Scalar {
                value: "v".to_string(),
                style: ScalarStyle::Plain,
                anchor: None,
                tag: None
            },
            EventKind::MappingEnd,
            EventKind::SequenceEnd,
            EventKind::DocumentEnd,
            EventKind::StreamEnd,
        ]
    );
}

#[test]
fn indentless_sequence_value() {
    assert_eq!(
        kinds("items:\n- a\n- b\n"),
        vec![
            EventKind::StreamStart,
            EventKind::DocumentStart,
            EventKind::MappingStart {
                anchor: None,
                tag: None
            },
            EventKind::Scalar {
                value: "items".to_string(),
                style: ScalarStyle::Plain,
                anchor: None,
                tag: None
            },
            EventKind::SequenceStart {
                anchor: None,
                tag: None
            },
            EventKind::Scalar {
                value: "a".to_string(),
                style: ScalarStyle::Plain,
                anchor: None,
                tag: None
            },
            EventKind::Scalar {
                value: "b".to_string(),
                style: ScalarStyle::Plain,
                anchor: None,
                tag: None
            },
            EventKind::SequenceEnd,
            EventKind::MappingEnd,
            EventKind::DocumentEnd,
            EventKind::StreamEnd,
        ]
    );
}

#[test]
fn flow_sequence() {
    assert_eq!(
        kinds("[a, b]"),
        vec![
            EventKind::StreamStart,
            EventKind::DocumentStart,
            EventKind::SequenceStart {
                anchor: None,
                tag: None
            },
            EventKind::Scalar {
                value: "a".to_string(),
                style: ScalarStyle::Plain,
                anchor: None,
                tag: None
            },
            EventKind::Scalar {
                value: "b".to_string(),
                style: ScalarStyle::Plain,
                anchor: None,
                tag: None
            },
            EventKind::SequenceEnd,
            EventKind::DocumentEnd,
            EventKind::StreamEnd,
        ]
    );
}

#[test]
fn flow_sequence_single_pair_mapping() {
    assert_eq!(
        kinds("[a: b]"),
        vec![
            EventKind::StreamStart,
            EventKind::DocumentStart,
            EventKind::SequenceStart {
                anchor: None,
                tag: None
            },
            EventKind::MappingStart {
                anchor: None,
                tag: None
            },
            EventKind::Scalar {
                value: "a".to_string(),
                style: ScalarStyle::Plain,
                anchor: None,
                tag: None
            },
            EventKind::Scalar {
                value: "b".to_string(),
                style: ScalarStyle::Plain,
                anchor: None,
                tag: None
            },
            EventKind::MappingEnd,
            EventKind::SequenceEnd,
            EventKind::DocumentEnd,
            EventKind::StreamEnd,
        ]
    );
}

#[test]
fn empty_flow_sequence() {
    assert_eq!(
        kinds("[]"),
        vec![
            EventKind::StreamStart,
            EventKind::DocumentStart,
            EventKind::SequenceStart {
                anchor: None,
                tag: None
            },
            EventKind::SequenceEnd,
            EventKind::DocumentEnd,
            EventKind::StreamEnd,
        ]
    );
}

#[test]
fn nested_flow_sequence() {
    assert_eq!(
        kinds("[[a], b]"),
        vec![
            EventKind::StreamStart,
            EventKind::DocumentStart,
            EventKind::SequenceStart {
                anchor: None,
                tag: None
            },
            EventKind::SequenceStart {
                anchor: None,
                tag: None
            },
            EventKind::Scalar {
                value: "a".to_string(),
                style: ScalarStyle::Plain,
                anchor: None,
                tag: None
            },
            EventKind::SequenceEnd,
            EventKind::Scalar {
                value: "b".to_string(),
                style: ScalarStyle::Plain,
                anchor: None,
                tag: None
            },
            EventKind::SequenceEnd,
            EventKind::DocumentEnd,
            EventKind::StreamEnd,
        ]
    );
}

#[test]
fn flow_sequence_trailing_comma() {
    assert_eq!(
        kinds("[a, b,]"),
        vec![
            EventKind::StreamStart,
            EventKind::DocumentStart,
            EventKind::SequenceStart {
                anchor: None,
                tag: None
            },
            EventKind::Scalar {
                value: "a".to_string(),
                style: ScalarStyle::Plain,
                anchor: None,
                tag: None
            },
            EventKind::Scalar {
                value: "b".to_string(),
                style: ScalarStyle::Plain,
                anchor: None,
                tag: None
            },
            EventKind::SequenceEnd,
            EventKind::DocumentEnd,
            EventKind::StreamEnd,
        ]
    );
}

#[test]
fn flow_mapping() {
    assert_eq!(
        kinds("{a: b, c: d}"),
        vec![
            EventKind::StreamStart,
            EventKind::DocumentStart,
            EventKind::MappingStart {
                anchor: None,
                tag: None
            },
            EventKind::Scalar {
                value: "a".to_string(),
                style: ScalarStyle::Plain,
                anchor: None,
                tag: None
            },
            EventKind::Scalar {
                value: "b".to_string(),
                style: ScalarStyle::Plain,
                anchor: None,
                tag: None
            },
            EventKind::Scalar {
                value: "c".to_string(),
                style: ScalarStyle::Plain,
                anchor: None,
                tag: None
            },
            EventKind::Scalar {
                value: "d".to_string(),
                style: ScalarStyle::Plain,
                anchor: None,
                tag: None
            },
            EventKind::MappingEnd,
            EventKind::DocumentEnd,
            EventKind::StreamEnd,
        ]
    );
}

#[test]
fn empty_flow_mapping() {
    assert_eq!(
        kinds("{}"),
        vec![
            EventKind::StreamStart,
            EventKind::DocumentStart,
            EventKind::MappingStart {
                anchor: None,
                tag: None
            },
            EventKind::MappingEnd,
            EventKind::DocumentEnd,
            EventKind::StreamEnd,
        ]
    );
}

#[test]
fn flow_mapping_key_only_has_empty_value() {
    assert_eq!(
        kinds("{a}"),
        vec![
            EventKind::StreamStart,
            EventKind::DocumentStart,
            EventKind::MappingStart {
                anchor: None,
                tag: None
            },
            EventKind::Scalar {
                value: "a".to_string(),
                style: ScalarStyle::Plain,
                anchor: None,
                tag: None
            },
            EventKind::Scalar {
                value: String::new(),
                style: ScalarStyle::Plain,
                anchor: None,
                tag: None
            },
            EventKind::MappingEnd,
            EventKind::DocumentEnd,
            EventKind::StreamEnd,
        ]
    );
}

#[test]
fn flow_mapping_empty_key() {
    assert_eq!(
        kinds("{: b}"),
        vec![
            EventKind::StreamStart,
            EventKind::DocumentStart,
            EventKind::MappingStart {
                anchor: None,
                tag: None
            },
            EventKind::Scalar {
                value: String::new(),
                style: ScalarStyle::Plain,
                anchor: None,
                tag: None
            },
            EventKind::Scalar {
                value: "b".to_string(),
                style: ScalarStyle::Plain,
                anchor: None,
                tag: None
            },
            EventKind::MappingEnd,
            EventKind::DocumentEnd,
            EventKind::StreamEnd,
        ]
    );
}

#[test]
fn flow_mapping_explicit_key() {
    assert_eq!(
        kinds("{? a : b}"),
        vec![
            EventKind::StreamStart,
            EventKind::DocumentStart,
            EventKind::MappingStart {
                anchor: None,
                tag: None
            },
            EventKind::Scalar {
                value: "a".to_string(),
                style: ScalarStyle::Plain,
                anchor: None,
                tag: None
            },
            EventKind::Scalar {
                value: "b".to_string(),
                style: ScalarStyle::Plain,
                anchor: None,
                tag: None
            },
            EventKind::MappingEnd,
            EventKind::DocumentEnd,
            EventKind::StreamEnd,
        ]
    );
}

#[test]
fn nested_flow_collections() {
    assert_eq!(
        kinds("{k: [1, 2]}"),
        vec![
            EventKind::StreamStart,
            EventKind::DocumentStart,
            EventKind::MappingStart {
                anchor: None,
                tag: None
            },
            EventKind::Scalar {
                value: "k".to_string(),
                style: ScalarStyle::Plain,
                anchor: None,
                tag: None
            },
            EventKind::SequenceStart {
                anchor: None,
                tag: None
            },
            EventKind::Scalar {
                value: "1".to_string(),
                style: ScalarStyle::Plain,
                anchor: None,
                tag: None
            },
            EventKind::Scalar {
                value: "2".to_string(),
                style: ScalarStyle::Plain,
                anchor: None,
                tag: None
            },
            EventKind::SequenceEnd,
            EventKind::MappingEnd,
            EventKind::DocumentEnd,
            EventKind::StreamEnd,
        ]
    );
}

#[test]
fn anchor_on_flow_sequence() {
    assert_eq!(
        kinds("&a [1]"),
        vec![
            EventKind::StreamStart,
            EventKind::DocumentStart,
            EventKind::SequenceStart {
                anchor: Some("a".to_string()),
                tag: None
            },
            EventKind::Scalar {
                value: "1".to_string(),
                style: ScalarStyle::Plain,
                anchor: None,
                tag: None
            },
            EventKind::SequenceEnd,
            EventKind::DocumentEnd,
            EventKind::StreamEnd,
        ]
    );
}

#[test]
fn tag_on_flow_mapping() {
    assert_eq!(
        kinds("!!map {a: b}"),
        vec![
            EventKind::StreamStart,
            EventKind::DocumentStart,
            EventKind::MappingStart {
                anchor: None,
                tag: Some("tag:yaml.org,2002:map".to_string())
            },
            EventKind::Scalar {
                value: "a".to_string(),
                style: ScalarStyle::Plain,
                anchor: None,
                tag: None
            },
            EventKind::Scalar {
                value: "b".to_string(),
                style: ScalarStyle::Plain,
                anchor: None,
                tag: None
            },
            EventKind::MappingEnd,
            EventKind::DocumentEnd,
            EventKind::StreamEnd,
        ]
    );
}

#[test]
fn anchor_on_block_sequence() {
    assert_eq!(
        kinds("&items\n- a\n- b\n"),
        vec![
            EventKind::StreamStart,
            EventKind::DocumentStart,
            EventKind::SequenceStart {
                anchor: Some("items".to_string()),
                tag: None
            },
            EventKind::Scalar {
                value: "a".to_string(),
                style: ScalarStyle::Plain,
                anchor: None,
                tag: None
            },
            EventKind::Scalar {
                value: "b".to_string(),
                style: ScalarStyle::Plain,
                anchor: None,
                tag: None
            },
            EventKind::SequenceEnd,
            EventKind::DocumentEnd,
            EventKind::StreamEnd,
        ]
    );
}

#[test]
fn anchor_and_tag_on_block_mapping() {
    assert_eq!(
        kinds("&m !!map\na: 1\n"),
        vec![
            EventKind::StreamStart,
            EventKind::DocumentStart,
            EventKind::MappingStart {
                anchor: Some("m".to_string()),
                tag: Some("tag:yaml.org,2002:map".to_string())
            },
            EventKind::Scalar {
                value: "a".to_string(),
                style: ScalarStyle::Plain,
                anchor: None,
                tag: None
            },
            EventKind::Scalar {
                value: "1".to_string(),
                style: ScalarStyle::Plain,
                anchor: None,
                tag: None
            },
            EventKind::MappingEnd,
            EventKind::DocumentEnd,
            EventKind::StreamEnd,
        ]
    );
}

#[test]
fn mapping_with_empty_value() {
    assert_eq!(
        kinds("a:\n"),
        vec![
            EventKind::StreamStart,
            EventKind::DocumentStart,
            EventKind::MappingStart {
                anchor: None,
                tag: None
            },
            EventKind::Scalar {
                value: "a".to_string(),
                style: ScalarStyle::Plain,
                anchor: None,
                tag: None
            },
            EventKind::Scalar {
                value: "".to_string(),
                style: ScalarStyle::Plain,
                anchor: None,
                tag: None
            },
            EventKind::MappingEnd,
            EventKind::DocumentEnd,
            EventKind::StreamEnd,
        ]
    );
}

#[test]
fn sequence_with_empty_entry() {
    assert_eq!(
        kinds("-\n- a\n"),
        vec![
            EventKind::StreamStart,
            EventKind::DocumentStart,
            EventKind::SequenceStart {
                anchor: None,
                tag: None
            },
            EventKind::Scalar {
                value: "".to_string(),
                style: ScalarStyle::Plain,
                anchor: None,
                tag: None
            },
            EventKind::Scalar {
                value: "a".to_string(),
                style: ScalarStyle::Plain,
                anchor: None,
                tag: None
            },
            EventKind::SequenceEnd,
            EventKind::DocumentEnd,
            EventKind::StreamEnd,
        ]
    );
}

#[test]
fn empty_document() {
    assert_eq!(
        kinds("---\n"),
        vec![
            EventKind::StreamStart,
            EventKind::DocumentStart,
            EventKind::Scalar {
                value: "".to_string(),
                style: ScalarStyle::Plain,
                anchor: None,
                tag: None
            },
            EventKind::DocumentEnd,
            EventKind::StreamEnd,
        ]
    );
}

#[test]
fn deeply_nested_flow_exceeds_max_depth() {
    let opts = ParseOptions {
        limits: yaml2::options::Limits {
            max_depth: 16,
            ..Default::default()
        },
        ..Default::default()
    };
    let input = "[".repeat(50) + &"]".repeat(50);
    let err = parse_events(&input, &opts).unwrap_err();
    assert_eq!(err.kind(), yaml2::error::ErrorKind::LimitExceeded);
}

#[test]
fn nesting_within_limit_is_ok() {
    let opts = ParseOptions {
        limits: yaml2::options::Limits {
            max_depth: 16,
            ..Default::default()
        },
        ..Default::default()
    };
    // 5 levels of flow sequence nesting, well within the limit.
    assert!(parse_events("[[[[[x]]]]]", &opts).is_ok());
}

#[test]
fn malformed_double_colon_is_rejected() {
    // `a: b: c` yields a token stream with a mapping start followed by a
    // Value with no Key — a Parse error, not garbage events.
    let err = parse_events("a: b: c\n", &ParseOptions::default()).unwrap_err();
    assert_eq!(err.kind(), yaml2::error::ErrorKind::Parse);
}

#[test]
fn realistic_document_events() {
    let input = "name: Ada\njobs:\n  - lang: rust\n    years: 3\n  - lang: yaml\n";
    assert_eq!(
        kinds(input),
        vec![
            EventKind::StreamStart,
            EventKind::DocumentStart,
            EventKind::MappingStart {
                anchor: None,
                tag: None
            },
            EventKind::Scalar {
                value: "name".to_string(),
                style: ScalarStyle::Plain,
                anchor: None,
                tag: None
            },
            EventKind::Scalar {
                value: "Ada".to_string(),
                style: ScalarStyle::Plain,
                anchor: None,
                tag: None
            },
            EventKind::Scalar {
                value: "jobs".to_string(),
                style: ScalarStyle::Plain,
                anchor: None,
                tag: None
            },
            EventKind::SequenceStart {
                anchor: None,
                tag: None
            },
            EventKind::MappingStart {
                anchor: None,
                tag: None
            },
            EventKind::Scalar {
                value: "lang".to_string(),
                style: ScalarStyle::Plain,
                anchor: None,
                tag: None
            },
            EventKind::Scalar {
                value: "rust".to_string(),
                style: ScalarStyle::Plain,
                anchor: None,
                tag: None
            },
            EventKind::Scalar {
                value: "years".to_string(),
                style: ScalarStyle::Plain,
                anchor: None,
                tag: None
            },
            EventKind::Scalar {
                value: "3".to_string(),
                style: ScalarStyle::Plain,
                anchor: None,
                tag: None
            },
            EventKind::MappingEnd,
            EventKind::MappingStart {
                anchor: None,
                tag: None
            },
            EventKind::Scalar {
                value: "lang".to_string(),
                style: ScalarStyle::Plain,
                anchor: None,
                tag: None
            },
            EventKind::Scalar {
                value: "yaml".to_string(),
                style: ScalarStyle::Plain,
                anchor: None,
                tag: None
            },
            EventKind::MappingEnd,
            EventKind::SequenceEnd,
            EventKind::MappingEnd,
            EventKind::DocumentEnd,
            EventKind::StreamEnd,
        ]
    );
}

#[test]
fn block_scalar_value_event() {
    assert_eq!(
        kinds("text: |\n  a\n  b\n"),
        vec![
            EventKind::StreamStart,
            EventKind::DocumentStart,
            EventKind::MappingStart {
                anchor: None,
                tag: None
            },
            EventKind::Scalar {
                value: "text".to_string(),
                style: ScalarStyle::Plain,
                anchor: None,
                tag: None
            },
            EventKind::Scalar {
                value: "a\nb\n".to_string(),
                style: ScalarStyle::Literal,
                anchor: None,
                tag: None
            },
            EventKind::MappingEnd,
            EventKind::DocumentEnd,
            EventKind::StreamEnd,
        ]
    );
}

#[test]
fn unexpected_document_level_token_errors_without_hanging() {
    let err = parse_events("]", &ParseOptions::default()).unwrap_err();
    assert_eq!(err.kind(), yaml2::error::ErrorKind::Parse);
}

#[test]
fn flow_sequence_leading_comma_is_error() {
    let err = parse_events("[, a]", &ParseOptions::default()).unwrap_err();
    assert_eq!(err.kind(), yaml2::error::ErrorKind::Parse);
}

#[test]
fn flow_sequence_repeated_comma_is_error() {
    let err = parse_events("[a, , b]", &ParseOptions::default()).unwrap_err();
    assert_eq!(err.kind(), yaml2::error::ErrorKind::Parse);
}

#[test]
fn flow_sequence_trailing_comma_is_ok() {
    // A single trailing comma is valid; only leading/repeated commas error.
    assert!(parse_events("[a, b,]", &ParseOptions::default()).is_ok());
}

#[test]
fn flow_mapping_leading_comma_is_error() {
    let err = parse_events("{, a: b}", &ParseOptions::default()).unwrap_err();
    assert_eq!(err.kind(), yaml2::error::ErrorKind::Parse);
}
