use yaml2::error::ErrorKind;
use yaml2::meta::ScalarStyle;
use yaml2::options::Limits;
use yaml2::scanner::token::TokenKind;
use yaml2::scanner::tokenize;

fn kinds(input: &str) -> Vec<TokenKind> {
    tokenize(input, Limits::default())
        .unwrap()
        .into_iter()
        .map(|t| t.kind)
        .collect()
}

#[test]
fn mod_empty_input_is_stream_start_then_end() {
    assert_eq!(
        kinds(""),
        vec![TokenKind::StreamStart, TokenKind::StreamEnd]
    );
}

#[test]
fn whitespace_and_comments_are_skipped() {
    assert_eq!(
        kinds("   # a comment\n\n  # another\n"),
        vec![TokenKind::StreamStart, TokenKind::StreamEnd]
    );
}

#[test]
fn input_over_size_limit_errors() {
    let limits = Limits {
        max_input_bytes: 4,
        ..Limits::default()
    };
    let err = tokenize("abcdef", limits).unwrap_err();
    assert_eq!(err.kind(), yaml2::error::ErrorKind::LimitExceeded);
}

#[test]
fn flow_collection_indicators() {
    assert_eq!(
        kinds("[]{}"),
        vec![
            TokenKind::StreamStart,
            TokenKind::FlowSequenceStart,
            TokenKind::FlowSequenceEnd,
            TokenKind::FlowMappingStart,
            TokenKind::FlowMappingEnd,
            TokenKind::StreamEnd,
        ]
    );
}

#[test]
fn flow_entry_and_value_and_key() {
    // In flow context `:` and `?` are indicators; here we test them there.
    assert_eq!(
        kinds("{, : ?}"),
        vec![
            TokenKind::StreamStart,
            TokenKind::FlowMappingStart,
            TokenKind::FlowEntry,
            TokenKind::Value,
            TokenKind::Key,
            TokenKind::FlowMappingEnd,
            TokenKind::StreamEnd,
        ]
    );
}

#[test]
fn value_indicator_before_flow_end() {
    assert_eq!(
        kinds("{:}"),
        vec![
            TokenKind::StreamStart,
            TokenKind::FlowMappingStart,
            TokenKind::Value,
            TokenKind::FlowMappingEnd,
            TokenKind::StreamEnd,
        ]
    );
}

#[test]
fn document_start_and_end_markers() {
    assert_eq!(
        kinds("---\n...\n"),
        vec![
            TokenKind::StreamStart,
            TokenKind::DocumentStart,
            TokenKind::DocumentEnd,
            TokenKind::StreamEnd,
        ]
    );
}

#[test]
fn content_after_document_end_marker_is_error() {
    assert_eq!(
        tokenize("---\nx\n... junk\n", Limits::default())
            .unwrap_err()
            .kind(),
        yaml2::error::ErrorKind::Scan
    );
    // A trailing comment after `...` is fine.
    assert!(tokenize("---\nx\n... # bye\n", Limits::default()).is_ok());
}

#[test]
fn document_start_at_eof() {
    assert_eq!(
        kinds("---"),
        vec![
            TokenKind::StreamStart,
            TokenKind::DocumentStart,
            TokenKind::StreamEnd,
        ]
    );
}

#[test]
fn triple_dash_followed_by_content_is_marker_then_token() {
    assert_eq!(
        kinds("--- ["),
        vec![
            TokenKind::StreamStart,
            TokenKind::DocumentStart,
            TokenKind::FlowSequenceStart,
            TokenKind::StreamEnd,
        ]
    );
}

#[test]
fn stream_start_is_zero_width_at_origin() {
    let toks = tokenize("", Limits::default()).unwrap();
    assert_eq!(toks[0].span.start, yaml2::error::Position::new(0, 1, 1));
    assert_eq!(toks[0].span.end, yaml2::error::Position::new(0, 1, 1));
}

fn one_scalar(input: &str) -> (String, ScalarStyle) {
    let mut v: Vec<(String, ScalarStyle)> = tokenize(input, Limits::default())
        .unwrap()
        .into_iter()
        .filter_map(|t| match t.kind {
            TokenKind::Scalar { value, style } => Some((value, style)),
            _ => None,
        })
        .collect();
    assert_eq!(v.len(), 1, "expected exactly one scalar");
    v.pop().unwrap()
}

#[test]
fn literal_block_scalar_basic() {
    assert_eq!(
        one_scalar("|\n  line one\n  line two\n"),
        ("line one\nline two\n".to_string(), ScalarStyle::Literal)
    );
}

#[test]
fn invalid_block_scalar_headers_error() {
    for input in ["|0\n x\n", "|10\n x\n", ">#c\n  x\n"] {
        assert_eq!(
            tokenize(input, Limits::default()).unwrap_err().kind(),
            yaml2::error::ErrorKind::Scan,
            "expected scan error for {input:?}"
        );
    }
}

#[test]
fn literal_block_scalar_strip() {
    assert_eq!(
        one_scalar("|-\n  a\n  b\n"),
        ("a\nb".to_string(), ScalarStyle::Literal)
    );
}

#[test]
fn literal_block_scalar_keep() {
    assert_eq!(
        one_scalar("|+\n  a\n\n"),
        ("a\n\n".to_string(), ScalarStyle::Literal)
    );
}

#[test]
fn literal_block_scalar_blank_line_inside() {
    assert_eq!(
        one_scalar("|\n  a\n\n  b\n"),
        ("a\n\nb\n".to_string(), ScalarStyle::Literal)
    );
}

#[test]
fn block_scalar_explicit_indent() {
    // `|2` at root: content indent is exactly 2 spaces; extra spaces on the
    // second line are content.
    assert_eq!(
        one_scalar("|2\n  a\n    b\n"),
        ("a\n  b\n".to_string(), ScalarStyle::Literal)
    );
}

#[test]
fn block_scalar_indent_and_chomp_combined() {
    assert_eq!(
        one_scalar("|2-\n  a\n  b\n"),
        ("a\nb".to_string(), ScalarStyle::Literal)
    );
}

fn scalars(input: &str) -> Vec<(String, ScalarStyle)> {
    tokenize(input, Limits::default())
        .unwrap()
        .into_iter()
        .filter_map(|t| match t.kind {
            TokenKind::Scalar { value, style } => Some((value, style)),
            _ => None,
        })
        .collect()
}

#[test]
fn single_quoted_basic() {
    assert_eq!(
        scalars("'hello world'"),
        vec![("hello world".to_string(), ScalarStyle::SingleQuoted)]
    );
}

#[test]
fn single_quoted_doubled_quote_is_literal_quote() {
    assert_eq!(
        scalars("'it''s'"),
        vec![("it's".to_string(), ScalarStyle::SingleQuoted)]
    );
}

#[test]
fn unterminated_single_quote_errors() {
    let err = tokenize("'oops", Limits::default()).unwrap_err();
    assert_eq!(err.kind(), yaml2::error::ErrorKind::Scan);
}

#[test]
fn double_quoted_basic() {
    assert_eq!(
        scalars("\"hello\""),
        vec![("hello".to_string(), ScalarStyle::DoubleQuoted)]
    );
}

#[test]
fn double_quoted_simple_escapes() {
    assert_eq!(
        scalars("\"a\\tb\\nc\\\"d\\\\e\""),
        vec![("a\tb\nc\"d\\e".to_string(), ScalarStyle::DoubleQuoted)]
    );
}

#[test]
fn double_quoted_unicode_escapes() {
    // \x41 == 'A', B == 'B', \U00000043 == 'C'
    assert_eq!(
        scalars("\"\\x41\\u0042\\U00000043\""),
        vec![("ABC".to_string(), ScalarStyle::DoubleQuoted)]
    );
}

#[test]
fn double_quoted_null_and_special_named_escapes() {
    // \0 -> NUL, \N -> U+0085, \_ -> U+00A0
    let got = scalars("\"\\0\\N\\_\"");
    assert_eq!(got.len(), 1);
    assert_eq!(got[0].1, ScalarStyle::DoubleQuoted);
    assert_eq!(got[0].0, "\u{0}\u{85}\u{a0}");
}

#[test]
fn unterminated_double_quote_errors() {
    let err = tokenize("\"oops", Limits::default()).unwrap_err();
    assert_eq!(err.kind(), yaml2::error::ErrorKind::Scan);
}

#[test]
fn invalid_escape_errors() {
    let err = tokenize("\"\\q\"", Limits::default()).unwrap_err();
    assert_eq!(err.kind(), yaml2::error::ErrorKind::Scan);
}

#[test]
fn plain_scalar_simple() {
    assert_eq!(
        scalars("hello"),
        vec![("hello".to_string(), ScalarStyle::Plain)]
    );
}

#[test]
fn plain_scalar_keeps_internal_spaces_trims_trailing() {
    assert_eq!(
        scalars("the quick brown   "),
        vec![("the quick brown".to_string(), ScalarStyle::Plain)]
    );
}

#[test]
fn plain_scalar_with_colon_in_content() {
    assert_eq!(
        scalars("http://x"),
        vec![("http://x".to_string(), ScalarStyle::Plain)]
    );
}

#[test]
fn plain_scalar_terminated_by_value_indicator() {
    // In block context `key: value` is a single-pair block mapping.
    assert_eq!(
        kinds("key: value"),
        vec![
            TokenKind::StreamStart,
            TokenKind::BlockMappingStart,
            TokenKind::Key,
            TokenKind::Scalar {
                value: "key".to_string(),
                style: ScalarStyle::Plain
            },
            TokenKind::Value,
            TokenKind::Scalar {
                value: "value".to_string(),
                style: ScalarStyle::Plain
            },
            TokenKind::BlockEnd,
            TokenKind::StreamEnd,
        ]
    );
}

#[test]
fn plain_scalar_in_flow_sequence() {
    assert_eq!(
        kinds("[a, b]"),
        vec![
            TokenKind::StreamStart,
            TokenKind::FlowSequenceStart,
            TokenKind::Scalar {
                value: "a".to_string(),
                style: ScalarStyle::Plain
            },
            TokenKind::FlowEntry,
            TokenKind::Scalar {
                value: "b".to_string(),
                style: ScalarStyle::Plain
            },
            TokenKind::FlowSequenceEnd,
            TokenKind::StreamEnd,
        ]
    );
}

#[test]
fn plain_scalar_terminated_by_comment() {
    assert_eq!(
        scalars("value # trailing comment"),
        vec![("value".to_string(), ScalarStyle::Plain)]
    );
}

#[test]
fn plain_scalar_hash_without_preceding_space_is_content() {
    // '#' only starts a comment when preceded by whitespace.
    assert_eq!(
        scalars("a#b"),
        vec![("a#b".to_string(), ScalarStyle::Plain)]
    );
}

#[test]
fn plain_scalar_trailing_colon_at_eof() {
    // 'abc:' -> block mapping: Key, scalar "abc", Value (no value scalar).
    assert_eq!(
        kinds("abc:"),
        vec![
            TokenKind::StreamStart,
            TokenKind::BlockMappingStart,
            TokenKind::Key,
            TokenKind::Scalar {
                value: "abc".to_string(),
                style: ScalarStyle::Plain
            },
            TokenKind::Value,
            TokenKind::BlockEnd,
            TokenKind::StreamEnd,
        ]
    );
}

#[test]
fn anchor_alias_tag() {
    assert_eq!(
        kinds("&a *b !c"),
        vec![
            TokenKind::StreamStart,
            TokenKind::Anchor("a".to_string()),
            TokenKind::Alias("b".to_string()),
            TokenKind::Tag("!c".to_string()),
            TokenKind::StreamEnd,
        ]
    );
}

#[test]
fn anchored_value_in_flow() {
    assert_eq!(
        kinds("[&x 1, *x]"),
        vec![
            TokenKind::StreamStart,
            TokenKind::FlowSequenceStart,
            TokenKind::Anchor("x".to_string()),
            TokenKind::Scalar {
                value: "1".to_string(),
                style: ScalarStyle::Plain
            },
            TokenKind::FlowEntry,
            TokenKind::Alias("x".to_string()),
            TokenKind::FlowSequenceEnd,
            TokenKind::StreamEnd,
        ]
    );
}

#[test]
fn double_bang_tag() {
    assert_eq!(
        kinds("!!str"),
        vec![
            TokenKind::StreamStart,
            TokenKind::Tag("tag:yaml.org,2002:str".to_string()),
            TokenKind::StreamEnd,
        ]
    );
}

#[test]
fn verbatim_tag_uses_uri_as_is() {
    assert_eq!(
        kinds("!<tag:example.com,2000:x> v"),
        vec![
            TokenKind::StreamStart,
            TokenKind::Tag("tag:example.com,2000:x".to_string()),
            TokenKind::Scalar {
                value: "v".to_string(),
                style: ScalarStyle::Plain
            },
            TokenKind::StreamEnd,
        ]
    );
}

#[test]
fn non_specific_tag_resolves_to_bang() {
    assert_eq!(
        kinds("! v"),
        vec![
            TokenKind::StreamStart,
            TokenKind::Tag("!".to_string()),
            TokenKind::Scalar {
                value: "v".to_string(),
                style: ScalarStyle::Plain
            },
            TokenKind::StreamEnd,
        ]
    );
}

#[test]
fn undefined_named_handle_is_scan_error() {
    let err = tokenize("!e!foo v", Limits::default()).unwrap_err();
    assert_eq!(err.kind(), yaml2::error::ErrorKind::Scan);
}

#[test]
fn empty_anchor_name_errors() {
    let err = tokenize("& ", Limits::default()).unwrap_err();
    assert_eq!(err.kind(), yaml2::error::ErrorKind::Scan);
}

#[test]
fn full_flow_document_tokenizes() {
    let input = r#"{ name: "Ada", scores: [90, 88, *prev], tag: !lang ~ }"#;
    assert_eq!(
        kinds(input),
        vec![
            TokenKind::StreamStart,
            TokenKind::FlowMappingStart,
            TokenKind::Scalar {
                value: "name".to_string(),
                style: ScalarStyle::Plain
            },
            TokenKind::Value,
            TokenKind::Scalar {
                value: "Ada".to_string(),
                style: ScalarStyle::DoubleQuoted
            },
            TokenKind::FlowEntry,
            TokenKind::Scalar {
                value: "scores".to_string(),
                style: ScalarStyle::Plain
            },
            TokenKind::Value,
            TokenKind::FlowSequenceStart,
            TokenKind::Scalar {
                value: "90".to_string(),
                style: ScalarStyle::Plain
            },
            TokenKind::FlowEntry,
            TokenKind::Scalar {
                value: "88".to_string(),
                style: ScalarStyle::Plain
            },
            TokenKind::FlowEntry,
            TokenKind::Alias("prev".to_string()),
            TokenKind::FlowSequenceEnd,
            TokenKind::FlowEntry,
            TokenKind::Scalar {
                value: "tag".to_string(),
                style: ScalarStyle::Plain
            },
            TokenKind::Value,
            TokenKind::Tag("!lang".to_string()),
            TokenKind::Scalar {
                value: "~".to_string(),
                style: ScalarStyle::Plain
            },
            TokenKind::FlowMappingEnd,
            TokenKind::StreamEnd,
        ]
    );
}

#[test]
fn multiple_documents() {
    assert_eq!(
        kinds("--- [1]\n--- [2]\n"),
        vec![
            TokenKind::StreamStart,
            TokenKind::DocumentStart,
            TokenKind::FlowSequenceStart,
            TokenKind::Scalar {
                value: "1".to_string(),
                style: ScalarStyle::Plain
            },
            TokenKind::FlowSequenceEnd,
            TokenKind::DocumentStart,
            TokenKind::FlowSequenceStart,
            TokenKind::Scalar {
                value: "2".to_string(),
                style: ScalarStyle::Plain
            },
            TokenKind::FlowSequenceEnd,
            TokenKind::StreamEnd,
        ]
    );
}

#[test]
fn spans_are_accurate_for_a_small_input() {
    let toks = tokenize("a, b", Limits::default()).unwrap();
    let scalar_a = &toks[1];
    assert!(matches!(&scalar_a.kind, TokenKind::Scalar { value, .. } if value == "a"));
    assert_eq!(scalar_a.span.start, yaml2::error::Position::new(0, 1, 1));
    assert_eq!(scalar_a.span.end, yaml2::error::Position::new(1, 1, 2));

    let comma = &toks[2];
    assert_eq!(comma.kind, TokenKind::FlowEntry);
    assert_eq!(comma.span.start, yaml2::error::Position::new(1, 1, 2));
    assert_eq!(comma.span.end, yaml2::error::Position::new(2, 1, 3));
}

#[test]
fn plain_scalar_span_excludes_trailing_whitespace() {
    // "a , b": scalar "a" with a trailing space before the comma.
    let toks = tokenize("a , b", Limits::default()).unwrap();
    let scalar_a = &toks[1];
    assert!(matches!(&scalar_a.kind, TokenKind::Scalar { value, .. } if value == "a"));
    // Span must end right after 'a' (offset 1, col 2), NOT after the space.
    assert_eq!(scalar_a.span.start, yaml2::error::Position::new(0, 1, 1));
    assert_eq!(scalar_a.span.end, yaml2::error::Position::new(1, 1, 2));
}

#[test]
fn compact_json_flow_mapping() {
    assert_eq!(
        kinds(r#"{"a":"b"}"#),
        vec![
            TokenKind::StreamStart,
            TokenKind::FlowMappingStart,
            TokenKind::Scalar {
                value: "a".to_string(),
                style: ScalarStyle::DoubleQuoted
            },
            TokenKind::Value,
            TokenKind::Scalar {
                value: "b".to_string(),
                style: ScalarStyle::DoubleQuoted
            },
            TokenKind::FlowMappingEnd,
            TokenKind::StreamEnd,
        ]
    );
}

#[test]
fn compact_json_nested() {
    assert_eq!(
        kinds(r#"{"k":[1,2]}"#),
        vec![
            TokenKind::StreamStart,
            TokenKind::FlowMappingStart,
            TokenKind::Scalar {
                value: "k".to_string(),
                style: ScalarStyle::DoubleQuoted
            },
            TokenKind::Value,
            TokenKind::FlowSequenceStart,
            TokenKind::Scalar {
                value: "1".to_string(),
                style: ScalarStyle::Plain
            },
            TokenKind::FlowEntry,
            TokenKind::Scalar {
                value: "2".to_string(),
                style: ScalarStyle::Plain
            },
            TokenKind::FlowSequenceEnd,
            TokenKind::FlowMappingEnd,
            TokenKind::StreamEnd,
        ]
    );
}

#[test]
fn plain_colon_in_flow_sequence_stays_plain() {
    // In flow, `a:b` (colon not followed by space/flow-char) is ONE plain scalar.
    assert_eq!(
        kinds("[a:b]"),
        vec![
            TokenKind::StreamStart,
            TokenKind::FlowSequenceStart,
            TokenKind::Scalar {
                value: "a:b".to_string(),
                style: ScalarStyle::Plain
            },
            TokenKind::FlowSequenceEnd,
            TokenKind::StreamEnd,
        ]
    );
}

#[test]
fn root_colon_still_requires_terminator() {
    // Outside flow, `:` only acts as a value indicator with a following
    // terminator. `:x` at root is a plain scalar starting with a colon.
    assert_eq!(scalars(":x"), vec![(":x".to_string(), ScalarStyle::Plain)]);
}

#[test]
fn bare_scalar_document_still_works() {
    assert_eq!(
        kinds("hello"),
        vec![
            TokenKind::StreamStart,
            TokenKind::Scalar {
                value: "hello".to_string(),
                style: ScalarStyle::Plain
            },
            TokenKind::StreamEnd,
        ]
    );
}

#[test]
fn block_indent_helpers_unroll_to_root_at_eof() {
    let toks = tokenize("hello\n", Limits::default()).unwrap();
    assert!(!toks.iter().any(|t| t.kind == TokenKind::BlockEnd));
}

#[test]
fn block_entry_mid_line_after_value_or_property_is_error() {
    // A `-` cannot start a block sequence after a `:` value or an anchor on
    // the same line; it must begin where a key could (line start / after `-`).
    for input in ["key: - a\n     - b\n", "&anchor - x\n"] {
        assert_eq!(
            tokenize(input, Limits::default()).unwrap_err().kind(),
            yaml2::error::ErrorKind::Scan,
            "expected scan error for {input:?}"
        );
    }
    // Compact nested sequences and indentless sequences stay valid.
    assert!(tokenize("- - a\n", Limits::default()).is_ok());
    assert!(tokenize("key:\n- a\n", Limits::default()).is_ok());
}

#[test]
fn simple_block_sequence() {
    assert_eq!(
        kinds("- a\n- b\n"),
        vec![
            TokenKind::StreamStart,
            TokenKind::BlockSequenceStart,
            TokenKind::BlockEntry,
            TokenKind::Scalar {
                value: "a".to_string(),
                style: ScalarStyle::Plain
            },
            TokenKind::BlockEntry,
            TokenKind::Scalar {
                value: "b".to_string(),
                style: ScalarStyle::Plain
            },
            TokenKind::BlockEnd,
            TokenKind::StreamEnd,
        ]
    );
}

#[test]
fn mod_nested_block_sequence() {
    assert_eq!(
        kinds("- - a\n"),
        vec![
            TokenKind::StreamStart,
            TokenKind::BlockSequenceStart,
            TokenKind::BlockEntry,
            TokenKind::BlockSequenceStart,
            TokenKind::BlockEntry,
            TokenKind::Scalar {
                value: "a".to_string(),
                style: ScalarStyle::Plain
            },
            TokenKind::BlockEnd,
            TokenKind::BlockEnd,
            TokenKind::StreamEnd,
        ]
    );
}

#[test]
fn simple_block_mapping() {
    assert_eq!(
        kinds("key: value\n"),
        vec![
            TokenKind::StreamStart,
            TokenKind::BlockMappingStart,
            TokenKind::Key,
            TokenKind::Scalar {
                value: "key".to_string(),
                style: ScalarStyle::Plain
            },
            TokenKind::Value,
            TokenKind::Scalar {
                value: "value".to_string(),
                style: ScalarStyle::Plain
            },
            TokenKind::BlockEnd,
            TokenKind::StreamEnd,
        ]
    );
}

#[test]
fn two_pair_block_mapping() {
    assert_eq!(
        kinds("a: 1\nb: 2\n"),
        vec![
            TokenKind::StreamStart,
            TokenKind::BlockMappingStart,
            TokenKind::Key,
            TokenKind::Scalar {
                value: "a".to_string(),
                style: ScalarStyle::Plain
            },
            TokenKind::Value,
            TokenKind::Scalar {
                value: "1".to_string(),
                style: ScalarStyle::Plain
            },
            TokenKind::Key,
            TokenKind::Scalar {
                value: "b".to_string(),
                style: ScalarStyle::Plain
            },
            TokenKind::Value,
            TokenKind::Scalar {
                value: "2".to_string(),
                style: ScalarStyle::Plain
            },
            TokenKind::BlockEnd,
            TokenKind::StreamEnd,
        ]
    );
}

#[test]
fn quoted_key_block_mapping() {
    assert_eq!(
        kinds("\"k\": v\n"),
        vec![
            TokenKind::StreamStart,
            TokenKind::BlockMappingStart,
            TokenKind::Key,
            TokenKind::Scalar {
                value: "k".to_string(),
                style: ScalarStyle::DoubleQuoted
            },
            TokenKind::Value,
            TokenKind::Scalar {
                value: "v".to_string(),
                style: ScalarStyle::Plain
            },
            TokenKind::BlockEnd,
            TokenKind::StreamEnd,
        ]
    );
}

#[test]
fn nested_mapping_value_on_following_lines() {
    assert_eq!(
        kinds("outer:\n  inner: v\n"),
        vec![
            TokenKind::StreamStart,
            TokenKind::BlockMappingStart,
            TokenKind::Key,
            TokenKind::Scalar {
                value: "outer".to_string(),
                style: ScalarStyle::Plain
            },
            TokenKind::Value,
            TokenKind::BlockMappingStart,
            TokenKind::Key,
            TokenKind::Scalar {
                value: "inner".to_string(),
                style: ScalarStyle::Plain
            },
            TokenKind::Value,
            TokenKind::Scalar {
                value: "v".to_string(),
                style: ScalarStyle::Plain
            },
            TokenKind::BlockEnd,
            TokenKind::BlockEnd,
            TokenKind::StreamEnd,
        ]
    );
}

#[test]
fn sequence_under_mapping_key() {
    // Indentless sequence: the `-` entries are at the same column as the
    // `items` key, so NO BlockSequenceStart envelope is emitted (the parser
    // treats bare BlockEntry tokens after Value as an indentless sequence).
    assert_eq!(
        kinds("items:\n- a\n- b\n"),
        vec![
            TokenKind::StreamStart,
            TokenKind::BlockMappingStart,
            TokenKind::Key,
            TokenKind::Scalar {
                value: "items".to_string(),
                style: ScalarStyle::Plain
            },
            TokenKind::Value,
            TokenKind::BlockEntry,
            TokenKind::Scalar {
                value: "a".to_string(),
                style: ScalarStyle::Plain
            },
            TokenKind::BlockEntry,
            TokenKind::Scalar {
                value: "b".to_string(),
                style: ScalarStyle::Plain
            },
            TokenKind::BlockEnd,
            TokenKind::StreamEnd,
        ]
    );
}

#[test]
fn indented_sequence_under_mapping_key_has_envelope() {
    // When the sequence is MORE indented than the key, it DOES get a
    // BlockSequenceStart/BlockEnd envelope.
    assert_eq!(
        kinds("items:\n  - a\n  - b\n"),
        vec![
            TokenKind::StreamStart,
            TokenKind::BlockMappingStart,
            TokenKind::Key,
            TokenKind::Scalar {
                value: "items".to_string(),
                style: ScalarStyle::Plain
            },
            TokenKind::Value,
            TokenKind::BlockSequenceStart,
            TokenKind::BlockEntry,
            TokenKind::Scalar {
                value: "a".to_string(),
                style: ScalarStyle::Plain
            },
            TokenKind::BlockEntry,
            TokenKind::Scalar {
                value: "b".to_string(),
                style: ScalarStyle::Plain
            },
            TokenKind::BlockEnd,
            TokenKind::BlockEnd,
            TokenKind::StreamEnd,
        ]
    );
}

#[test]
fn mod_mapping_in_sequence_entry() {
    assert_eq!(
        kinds("- k: v\n"),
        vec![
            TokenKind::StreamStart,
            TokenKind::BlockSequenceStart,
            TokenKind::BlockEntry,
            TokenKind::BlockMappingStart,
            TokenKind::Key,
            TokenKind::Scalar {
                value: "k".to_string(),
                style: ScalarStyle::Plain
            },
            TokenKind::Value,
            TokenKind::Scalar {
                value: "v".to_string(),
                style: ScalarStyle::Plain
            },
            TokenKind::BlockEnd,
            TokenKind::BlockEnd,
            TokenKind::StreamEnd,
        ]
    );
}

#[test]
fn bare_scalar_is_not_a_key() {
    // With multi-line plain folding, `hello\nworld` at root (indent -1) folds
    // into a single scalar. The key assertion still holds: no Key token is
    // produced — the two words are content of one scalar, not a key-value pair.
    assert_eq!(
        kinds("hello\nworld\n"),
        vec![
            TokenKind::StreamStart,
            TokenKind::Scalar {
                value: "hello world".to_string(),
                style: ScalarStyle::Plain
            },
            TokenKind::StreamEnd,
        ]
    );
}

#[test]
fn sequence_item_scalar_is_not_held_as_key() {
    assert_eq!(
        kinds("- a\n- b\n"),
        vec![
            TokenKind::StreamStart,
            TokenKind::BlockSequenceStart,
            TokenKind::BlockEntry,
            TokenKind::Scalar {
                value: "a".to_string(),
                style: ScalarStyle::Plain
            },
            TokenKind::BlockEntry,
            TokenKind::Scalar {
                value: "b".to_string(),
                style: ScalarStyle::Plain
            },
            TokenKind::BlockEnd,
            TokenKind::StreamEnd,
        ]
    );
}

#[test]
fn anchored_key_is_framed_correctly() {
    // `&a foo: bar` — the anchor is part of the KEY node, so Key must come
    // BEFORE the anchor, not between the anchor and the scalar.
    assert_eq!(
        kinds("&a foo: bar\n"),
        vec![
            TokenKind::StreamStart,
            TokenKind::BlockMappingStart,
            TokenKind::Key,
            TokenKind::Anchor("a".to_string()),
            TokenKind::Scalar {
                value: "foo".to_string(),
                style: ScalarStyle::Plain
            },
            TokenKind::Value,
            TokenKind::Scalar {
                value: "bar".to_string(),
                style: ScalarStyle::Plain
            },
            TokenKind::BlockEnd,
            TokenKind::StreamEnd,
        ]
    );
}

#[test]
fn block_mapping_with_comments_and_blanks() {
    let input = "# header\na: 1\n\n# mid\nb: 2\n";
    assert_eq!(
        kinds(input),
        vec![
            TokenKind::StreamStart,
            TokenKind::BlockMappingStart,
            TokenKind::Key,
            TokenKind::Scalar {
                value: "a".to_string(),
                style: ScalarStyle::Plain
            },
            TokenKind::Value,
            TokenKind::Scalar {
                value: "1".to_string(),
                style: ScalarStyle::Plain
            },
            TokenKind::Key,
            TokenKind::Scalar {
                value: "b".to_string(),
                style: ScalarStyle::Plain
            },
            TokenKind::Value,
            TokenKind::Scalar {
                value: "2".to_string(),
                style: ScalarStyle::Plain
            },
            TokenKind::BlockEnd,
            TokenKind::StreamEnd,
        ]
    );
}

#[test]
fn mapping_value_is_flow_collection() {
    assert_eq!(
        kinds("nums: [1, 2]\n"),
        vec![
            TokenKind::StreamStart,
            TokenKind::BlockMappingStart,
            TokenKind::Key,
            TokenKind::Scalar {
                value: "nums".to_string(),
                style: ScalarStyle::Plain
            },
            TokenKind::Value,
            TokenKind::FlowSequenceStart,
            TokenKind::Scalar {
                value: "1".to_string(),
                style: ScalarStyle::Plain
            },
            TokenKind::FlowEntry,
            TokenKind::Scalar {
                value: "2".to_string(),
                style: ScalarStyle::Plain
            },
            TokenKind::FlowSequenceEnd,
            TokenKind::BlockEnd,
            TokenKind::StreamEnd,
        ]
    );
}

#[test]
fn document_marker_resets_block_indent() {
    assert_eq!(
        kinds("a: 1\n---\nb: 2\n"),
        vec![
            TokenKind::StreamStart,
            TokenKind::BlockMappingStart,
            TokenKind::Key,
            TokenKind::Scalar {
                value: "a".to_string(),
                style: ScalarStyle::Plain
            },
            TokenKind::Value,
            TokenKind::Scalar {
                value: "1".to_string(),
                style: ScalarStyle::Plain
            },
            TokenKind::BlockEnd,
            TokenKind::DocumentStart,
            TokenKind::BlockMappingStart,
            TokenKind::Key,
            TokenKind::Scalar {
                value: "b".to_string(),
                style: ScalarStyle::Plain
            },
            TokenKind::Value,
            TokenKind::Scalar {
                value: "2".to_string(),
                style: ScalarStyle::Plain
            },
            TokenKind::BlockEnd,
            TokenKind::StreamEnd,
        ]
    );
}

#[test]
fn realistic_block_document() {
    let input = "name: Ada\njobs:\n  - lang: rust\n    years: 3\n  - lang: yaml\n";
    assert_eq!(
        kinds(input),
        vec![
            TokenKind::StreamStart,
            TokenKind::BlockMappingStart,
            TokenKind::Key,
            TokenKind::Scalar {
                value: "name".to_string(),
                style: ScalarStyle::Plain
            },
            TokenKind::Value,
            TokenKind::Scalar {
                value: "Ada".to_string(),
                style: ScalarStyle::Plain
            },
            TokenKind::Key,
            TokenKind::Scalar {
                value: "jobs".to_string(),
                style: ScalarStyle::Plain
            },
            TokenKind::Value,
            TokenKind::BlockSequenceStart,
            TokenKind::BlockEntry,
            TokenKind::BlockMappingStart,
            TokenKind::Key,
            TokenKind::Scalar {
                value: "lang".to_string(),
                style: ScalarStyle::Plain
            },
            TokenKind::Value,
            TokenKind::Scalar {
                value: "rust".to_string(),
                style: ScalarStyle::Plain
            },
            TokenKind::Key,
            TokenKind::Scalar {
                value: "years".to_string(),
                style: ScalarStyle::Plain
            },
            TokenKind::Value,
            TokenKind::Scalar {
                value: "3".to_string(),
                style: ScalarStyle::Plain
            },
            TokenKind::BlockEnd,
            TokenKind::BlockEntry,
            TokenKind::BlockMappingStart,
            TokenKind::Key,
            TokenKind::Scalar {
                value: "lang".to_string(),
                style: ScalarStyle::Plain
            },
            TokenKind::Value,
            TokenKind::Scalar {
                value: "yaml".to_string(),
                style: ScalarStyle::Plain
            },
            TokenKind::BlockEnd,
            TokenKind::BlockEnd,
            TokenKind::BlockEnd,
            TokenKind::StreamEnd,
        ]
    );
}

#[test]
fn flow_still_works_after_block_changes() {
    assert_eq!(
        kinds(r#"{"a":"b"}"#),
        vec![
            TokenKind::StreamStart,
            TokenKind::FlowMappingStart,
            TokenKind::Scalar {
                value: "a".to_string(),
                style: ScalarStyle::DoubleQuoted
            },
            TokenKind::Value,
            TokenKind::Scalar {
                value: "b".to_string(),
                style: ScalarStyle::DoubleQuoted
            },
            TokenKind::FlowMappingEnd,
            TokenKind::StreamEnd,
        ]
    );
}

#[test]
fn alias_as_block_mapping_key() {
    // `*x: v` -> the alias is the key; the ':' is a value indicator.
    assert_eq!(
        kinds("*x: v\n"),
        vec![
            TokenKind::StreamStart,
            TokenKind::BlockMappingStart,
            TokenKind::Key,
            TokenKind::Alias("x".to_string()),
            TokenKind::Value,
            TokenKind::Scalar {
                value: "v".to_string(),
                style: ScalarStyle::Plain
            },
            TokenKind::BlockEnd,
            TokenKind::StreamEnd,
        ]
    );
}

#[test]
fn anchor_name_may_contain_non_indicator_colon() {
    // `&x:y` (no space after ':') -> ':' is NOT a value indicator, so it is
    // part of the anchor name.
    assert_eq!(
        kinds("&x:y 1\n"),
        vec![
            TokenKind::StreamStart,
            TokenKind::Anchor("x:y".to_string()),
            TokenKind::Scalar {
                value: "1".to_string(),
                style: ScalarStyle::Plain
            },
            TokenKind::StreamEnd,
        ]
    );
}

#[test]
fn block_scalar_as_mapping_value() {
    assert_eq!(
        kinds("key: |\n  a\n  b\n"),
        vec![
            TokenKind::StreamStart,
            TokenKind::BlockMappingStart,
            TokenKind::Key,
            TokenKind::Scalar {
                value: "key".to_string(),
                style: ScalarStyle::Plain
            },
            TokenKind::Value,
            TokenKind::Scalar {
                value: "a\nb\n".to_string(),
                style: ScalarStyle::Literal
            },
            TokenKind::BlockEnd,
            TokenKind::StreamEnd,
        ]
    );
}

#[test]
fn block_scalar_then_next_key() {
    assert_eq!(
        kinds("a: |\n  x\nb: 2\n"),
        vec![
            TokenKind::StreamStart,
            TokenKind::BlockMappingStart,
            TokenKind::Key,
            TokenKind::Scalar {
                value: "a".to_string(),
                style: ScalarStyle::Plain
            },
            TokenKind::Value,
            TokenKind::Scalar {
                value: "x\n".to_string(),
                style: ScalarStyle::Literal
            },
            TokenKind::Key,
            TokenKind::Scalar {
                value: "b".to_string(),
                style: ScalarStyle::Plain
            },
            TokenKind::Value,
            TokenKind::Scalar {
                value: "2".to_string(),
                style: ScalarStyle::Plain
            },
            TokenKind::BlockEnd,
            TokenKind::StreamEnd,
        ]
    );
}

#[test]
fn block_scalar_as_sequence_item() {
    assert_eq!(
        kinds("- |\n  a\n- b\n"),
        vec![
            TokenKind::StreamStart,
            TokenKind::BlockSequenceStart,
            TokenKind::BlockEntry,
            TokenKind::Scalar {
                value: "a\n".to_string(),
                style: ScalarStyle::Literal
            },
            TokenKind::BlockEntry,
            TokenKind::Scalar {
                value: "b".to_string(),
                style: ScalarStyle::Plain
            },
            TokenKind::BlockEnd,
            TokenKind::StreamEnd,
        ]
    );
}

#[test]
fn folded_block_scalar_basic() {
    assert_eq!(
        one_scalar(">\n  a\n  b\n"),
        ("a b\n".to_string(), ScalarStyle::Folded)
    );
}

#[test]
fn folded_block_scalar_blank_line_is_newline() {
    assert_eq!(
        one_scalar(">\n  a\n\n  b\n"),
        ("a\nb\n".to_string(), ScalarStyle::Folded)
    );
}

#[test]
fn folded_block_scalar_more_indented_kept_literal() {
    assert_eq!(
        one_scalar(">\n  a\n   b\n  c\n"),
        ("a\n b\nc\n".to_string(), ScalarStyle::Folded)
    );
}

#[test]
fn folded_block_scalar_strip() {
    assert_eq!(
        one_scalar(">-\n  a\n  b\n"),
        ("a b".to_string(), ScalarStyle::Folded)
    );
}

#[test]
fn folded_blank_after_more_indented_kept() {
    // The more-indented line keeps a literal break AND the blank adds one.
    assert_eq!(
        one_scalar(">\n  a\n   b\n\n  c\n"),
        ("a\n b\n\nc\n".to_string(), ScalarStyle::Folded)
    );
}

#[test]
fn folded_two_blank_lines() {
    assert_eq!(
        one_scalar(">\n  a\n\n\n  b\n"),
        ("a\n\nb\n".to_string(), ScalarStyle::Folded)
    );
}

#[test]
fn folded_leading_blank_line() {
    assert_eq!(
        one_scalar(">\n\n  a\n"),
        ("\na\n".to_string(), ScalarStyle::Folded)
    );
}

#[test]
fn folded_trailing_blanks_keep() {
    assert_eq!(
        one_scalar(">+\n  a\n\n\n"),
        ("a\n\n\n".to_string(), ScalarStyle::Folded)
    );
}

#[test]
fn double_quoted_multiline_folds_to_space() {
    assert_eq!(
        one_scalar("\"a\nb\""),
        ("a b".to_string(), ScalarStyle::DoubleQuoted)
    );
}

#[test]
fn document_marker_inside_quoted_scalar_is_error() {
    assert_eq!(
        tokenize("\"a\n---\nb\"", Limits::default())
            .unwrap_err()
            .kind(),
        yaml2::error::ErrorKind::Scan
    );
    assert_eq!(
        tokenize("'a\n...\nb'", Limits::default())
            .unwrap_err()
            .kind(),
        yaml2::error::ErrorKind::Scan
    );
}

#[test]
fn indented_dots_inside_quoted_scalar_are_content() {
    // An indented `...` is folded content, not a document marker.
    assert_eq!(
        one_scalar("\"a\n  ... b\""),
        ("a ... b".to_string(), ScalarStyle::DoubleQuoted)
    );
}

#[test]
fn double_quoted_multiline_trims_surrounding_whitespace() {
    assert_eq!(
        one_scalar("\"a   \n   b\""),
        ("a b".to_string(), ScalarStyle::DoubleQuoted)
    );
}

#[test]
fn double_quoted_blank_line_becomes_newline() {
    assert_eq!(
        one_scalar("\"a\n\nb\""),
        ("a\nb".to_string(), ScalarStyle::DoubleQuoted)
    );
}

#[test]
fn double_quoted_escaped_line_continuation() {
    assert_eq!(
        one_scalar("\"a\\\n   b\""),
        ("ab".to_string(), ScalarStyle::DoubleQuoted)
    );
}

#[test]
fn single_quoted_multiline_folds_to_space() {
    assert_eq!(
        one_scalar("'a\nb'"),
        ("a b".to_string(), ScalarStyle::SingleQuoted)
    );
}

#[test]
fn single_quoted_multiline_trims_whitespace() {
    assert_eq!(
        one_scalar("'a  \n  b'"),
        ("a b".to_string(), ScalarStyle::SingleQuoted)
    );
}

#[test]
fn single_quoted_blank_line_becomes_newline() {
    assert_eq!(
        one_scalar("'a\n\nb'"),
        ("a\nb".to_string(), ScalarStyle::SingleQuoted)
    );
}

#[test]
fn single_quoted_doubled_quote_still_works_multiline() {
    assert_eq!(
        one_scalar("'it''s\nok'"),
        ("it's ok".to_string(), ScalarStyle::SingleQuoted)
    );
}

#[test]
fn block_scalars_in_a_mapping() {
    let input = "literal: |\n  a\n  b\nfolded: >\n  c\n  d\n";
    assert_eq!(
        kinds(input),
        vec![
            TokenKind::StreamStart,
            TokenKind::BlockMappingStart,
            TokenKind::Key,
            TokenKind::Scalar {
                value: "literal".to_string(),
                style: ScalarStyle::Plain
            },
            TokenKind::Value,
            TokenKind::Scalar {
                value: "a\nb\n".to_string(),
                style: ScalarStyle::Literal
            },
            TokenKind::Key,
            TokenKind::Scalar {
                value: "folded".to_string(),
                style: ScalarStyle::Plain
            },
            TokenKind::Value,
            TokenKind::Scalar {
                value: "c d\n".to_string(),
                style: ScalarStyle::Folded
            },
            TokenKind::BlockEnd,
            TokenKind::StreamEnd,
        ]
    );
}

#[test]
fn multiline_quoted_value_in_mapping() {
    assert_eq!(
        kinds("msg: \"hello\n  world\"\n"),
        vec![
            TokenKind::StreamStart,
            TokenKind::BlockMappingStart,
            TokenKind::Key,
            TokenKind::Scalar {
                value: "msg".to_string(),
                style: ScalarStyle::Plain
            },
            TokenKind::Value,
            TokenKind::Scalar {
                value: "hello world".to_string(),
                style: ScalarStyle::DoubleQuoted
            },
            TokenKind::BlockEnd,
            TokenKind::StreamEnd,
        ]
    );
}

#[test]
fn flow_and_block_scalars_unaffected() {
    assert_eq!(
        kinds(r#"{"a":"b"}"#),
        vec![
            TokenKind::StreamStart,
            TokenKind::FlowMappingStart,
            TokenKind::Scalar {
                value: "a".to_string(),
                style: ScalarStyle::DoubleQuoted
            },
            TokenKind::Value,
            TokenKind::Scalar {
                value: "b".to_string(),
                style: ScalarStyle::DoubleQuoted
            },
            TokenKind::FlowMappingEnd,
            TokenKind::StreamEnd,
        ]
    );
}

#[test]
fn literal_block_scalar_no_trailing_newline_at_eof() {
    // last line has no trailing newline; clip still yields one.
    assert_eq!(
        one_scalar("|\n  a"),
        ("a\n".to_string(), ScalarStyle::Literal)
    );
}

#[test]
fn literal_block_scalar_crlf_lines() {
    // CRLF line endings must not leave stray '\r' in the value.
    assert_eq!(
        one_scalar("|\r\n  a\r\n  b\r\n"),
        ("a\nb\n".to_string(), ScalarStyle::Literal)
    );
}

#[test]
fn block_scalar_huge_leading_space_run_is_linear() {
    // 100k leading spaces — must complete quickly (O(n), not O(n^2)).
    let spaces = " ".repeat(100_000);
    let input = format!("|\n{spaces}x\n");
    let (value, style) = one_scalar(&input);
    assert_eq!(style, ScalarStyle::Literal);
    // Auto-detected content indent is 100_000, so "x" is the content.
    assert_eq!(value, "x\n");
}

#[test]
fn plain_folds_single_break_to_space() {
    assert_eq!(
        scalars("one\ntwo\n"),
        vec![("one two".to_string(), ScalarStyle::Plain)]
    );
}

#[test]
fn plain_folds_blank_line_to_newline() {
    assert_eq!(
        scalars("a\n\nb\n"),
        vec![("a\nb".to_string(), ScalarStyle::Plain)]
    );
}

#[test]
fn plain_continuation_in_mapping_value() {
    assert_eq!(
        kinds("key: one\n  two\n"),
        vec![
            TokenKind::StreamStart,
            TokenKind::BlockMappingStart,
            TokenKind::Key,
            TokenKind::Scalar {
                value: "key".to_string(),
                style: ScalarStyle::Plain
            },
            TokenKind::Value,
            TokenKind::Scalar {
                value: "one two".to_string(),
                style: ScalarStyle::Plain
            },
            TokenKind::BlockEnd,
            TokenKind::StreamEnd,
        ]
    );
}

#[test]
fn plain_continuation_stops_at_dedent() {
    // `next` at column 0 is not more indented than the mapping (indent 0),
    // so the value scalar ends and `next: x` is a sibling entry.
    assert_eq!(
        kinds("key: one\n  two\nnext: x\n"),
        vec![
            TokenKind::StreamStart,
            TokenKind::BlockMappingStart,
            TokenKind::Key,
            TokenKind::Scalar {
                value: "key".to_string(),
                style: ScalarStyle::Plain
            },
            TokenKind::Value,
            TokenKind::Scalar {
                value: "one two".to_string(),
                style: ScalarStyle::Plain
            },
            TokenKind::Key,
            TokenKind::Scalar {
                value: "next".to_string(),
                style: ScalarStyle::Plain
            },
            TokenKind::Value,
            TokenKind::Scalar {
                value: "x".to_string(),
                style: ScalarStyle::Plain
            },
            TokenKind::BlockEnd,
            TokenKind::StreamEnd,
        ]
    );
}

#[test]
fn plain_continuation_stops_at_document_marker() {
    assert_eq!(
        scalars("one\n...\n"),
        vec![("one".to_string(), ScalarStyle::Plain)]
    );
}

#[test]
fn plain_continuation_stops_at_comment_line() {
    // The comment line ends the first scalar; `b` is a separate scalar.
    assert_eq!(
        scalars("a\n# c\nb\n"),
        vec![
            ("a".to_string(), ScalarStyle::Plain),
            ("b".to_string(), ScalarStyle::Plain),
        ]
    );
}

#[test]
fn plain_folds_in_flow_sequence() {
    assert_eq!(
        kinds("[one\n two]"),
        vec![
            TokenKind::StreamStart,
            TokenKind::FlowSequenceStart,
            TokenKind::Scalar {
                value: "one two".to_string(),
                style: ScalarStyle::Plain
            },
            TokenKind::FlowSequenceEnd,
            TokenKind::StreamEnd,
        ]
    );
}

#[test]
fn plain_single_line_unchanged() {
    // Regression: single-line plain scalars keep their internal spaces.
    assert_eq!(
        scalars("a b c\n"),
        vec![("a b c".to_string(), ScalarStyle::Plain)]
    );
}

#[test]
fn plain_root_sequence_after_scalar_is_not_folded() {
    // `- b` begins a block entry, so it does not continue the scalar `a`.
    assert_eq!(
        kinds("a\n- b\n"),
        vec![
            TokenKind::StreamStart,
            TokenKind::Scalar {
                value: "a".to_string(),
                style: ScalarStyle::Plain
            },
            TokenKind::BlockSequenceStart,
            TokenKind::BlockEntry,
            TokenKind::Scalar {
                value: "b".to_string(),
                style: ScalarStyle::Plain
            },
            TokenKind::BlockEnd,
            TokenKind::StreamEnd,
        ]
    );
}

#[test]
fn tag_directive_defines_named_handle() {
    assert_eq!(
        kinds("%TAG !e! tag:example.com,2000:\n--- !e!foo v\n"),
        vec![
            TokenKind::StreamStart,
            TokenKind::DocumentStart,
            TokenKind::Tag("tag:example.com,2000:foo".to_string()),
            TokenKind::Scalar {
                value: "v".to_string(),
                style: ScalarStyle::Plain
            },
            TokenKind::StreamEnd,
        ]
    );
}

#[test]
fn yaml_directive_is_accepted_and_ignored() {
    assert_eq!(
        kinds("%YAML 1.2\n--- x\n"),
        vec![
            TokenKind::StreamStart,
            TokenKind::DocumentStart,
            TokenKind::Scalar {
                value: "x".to_string(),
                style: ScalarStyle::Plain
            },
            TokenKind::StreamEnd,
        ]
    );
}

#[test]
fn secondary_handle_can_be_overridden() {
    assert_eq!(
        kinds("%TAG !! tag:example.com,2000:\n--- !!foo v\n"),
        vec![
            TokenKind::StreamStart,
            TokenKind::DocumentStart,
            TokenKind::Tag("tag:example.com,2000:foo".to_string()),
            TokenKind::Scalar {
                value: "v".to_string(),
                style: ScalarStyle::Plain
            },
            TokenKind::StreamEnd,
        ]
    );
}

#[test]
fn handles_reset_between_documents() {
    // `!e!` is defined for the first document only; the second document must
    // not see it, so its use is a scan error.
    let err = tokenize(
        "%TAG !e! tag:example.com,2000:\n--- !e!a\n--- !e!b\n",
        Limits::default(),
    )
    .unwrap_err();
    assert_eq!(err.kind(), yaml2::error::ErrorKind::Scan);
}

#[test]
fn leading_tab_indentation_is_rejected() {
    let err = tokenize("\tkey: value", Limits::default()).unwrap_err();
    assert_eq!(err.kind(), yaml2::error::ErrorKind::Scan);
}

#[test]
fn mixed_space_then_tab_indentation_is_rejected() {
    let err = tokenize("  \tkey: value", Limits::default()).unwrap_err();
    assert_eq!(err.kind(), yaml2::error::ErrorKind::Scan);
}

#[test]
fn nested_tab_indentation_is_rejected() {
    let err = tokenize("key:\n\tnested: v\n", Limits::default()).unwrap_err();
    assert_eq!(err.kind(), yaml2::error::ErrorKind::Scan);
}

#[test]
fn tab_as_separation_is_allowed() {
    // A tab after the `:` token is separation, not indentation.
    assert_eq!(
        kinds("key:\tvalue\n"),
        vec![
            TokenKind::StreamStart,
            TokenKind::BlockMappingStart,
            TokenKind::Key,
            TokenKind::Scalar {
                value: "key".to_string(),
                style: ScalarStyle::Plain
            },
            TokenKind::Value,
            TokenKind::Scalar {
                value: "value".to_string(),
                style: ScalarStyle::Plain
            },
            TokenKind::BlockEnd,
            TokenKind::StreamEnd,
        ]
    );
}

#[test]
fn tab_in_flow_context_is_allowed() {
    assert!(tokenize("[\n\ta, b]", Limits::default()).is_ok());
}

#[test]
fn tab_on_blank_line_is_allowed() {
    assert!(tokenize("a: 1\n\t\nb: 2\n", Limits::default()).is_ok());
}

#[test]
fn tab_before_comment_is_allowed() {
    assert!(tokenize("a: 1\n\t# c\nb: 2\n", Limits::default()).is_ok());
}

#[test]
fn trailing_tab_only_line_is_allowed() {
    // A tab with no following content (EOF) is not an indentation error.
    assert!(tokenize("a: 1\n\t", Limits::default()).is_ok());
}
