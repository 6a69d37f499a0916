use yaml2::api;
use yaml2::composer::{compose, float_texts};
use yaml2::emitter::{double_quote, finite_floats, format_float, string_needs_quoting};
use yaml2::error::ErrorKind;
use yaml2::event::EventKind;
use yaml2::floats::FloatTable;
use yaml2::meta::Meta;
use yaml2::options::{EmitOptions, Limits, MergeKeys, ParseOptions, Schema};
use yaml2::parser::parse_events;
use yaml2::scanner::token::TokenKind;
use yaml2::scanner::{tokenize, Scanner};
use yaml2::value::{Mapping, Number, Value};

/// The numbers that the decimal texts of a stream write.
fn written(input: &str, options: &ParseOptions) -> FloatTable {
    let mut floats = FloatTable::new();
    let events = parse_events(input, options).unwrap();
    for text in float_texts(&events, options) {
        let bits = text.parse::<f64>().unwrap().to_bits();
        floats.set_bits(text, bits);
    }
    floats
}

fn read(input: &str) -> Value {
    read_with(input, &ParseOptions::default())
}

fn read_with(input: &str, options: &ParseOptions) -> Value {
    api::parse_with(input, options, &written(input, options)).unwrap()
}

fn fails(input: &str) -> (ErrorKind, String) {
    let e = api::parse(input, &FloatTable::new()).unwrap_err();
    assert!(e.span().is_some());
    (e.kind(), e.message().to_string())
}

fn shown(values: &[Value]) -> FloatTable {
    let mut floats = FloatTable::new();
    for v in values {
        for bits in finite_floats(v) {
            floats.set_text(bits, format!("{}", f64::from_bits(bits)));
        }
    }
    floats
}

fn map(entries: Vec<(Value, Value)>) -> Value {
    let mut m = Mapping::new();
    for (k, v) in entries {
        m.insert(k, v);
    }
    Value::mapping(m)
}

fn s(text: &str) -> Value {
    Value::string(text)
}

fn i(n: i64) -> Value {
    Value::integer(n)
}

// --- Mappings and sequences ---

#[test]
fn nested_block_collections_compose() {
    let v = read("servers:\n  - name: a\n    ports: [80, 443]\n  - name: b\n    ports: []\n");
    let a = map(vec![
        (s("name"), s("a")),
        (s("ports"), Value::sequence(vec![i(80), i(443)])),
    ]);
    let b = map(vec![(s("name"), s("b")), (s("ports"), Value::sequence(vec![]))]);
    assert_eq!(v, map(vec![(s("servers"), Value::sequence(vec![a, b]))]));
}

#[test]
fn repeated_key_keeps_its_place_and_last_value() {
    let v = read("a: 1\nb: 2\na: 3\n");
    let m = v.as_mapping().unwrap();
    let keys: Vec<&str> = m.iter().iter().map(|(k, _)| k.as_str().unwrap()).collect();
    assert_eq!(keys, vec!["a", "b"]);
    assert_eq!(m.get(&s("a")).unwrap().as_int(), Some(3));
}

#[test]
fn single_pairs_in_a_flow_sequence_are_mappings() {
    let v = read("[a: 1, : 2, b]\n");
    let expected = Value::sequence(vec![
        map(vec![(s("a"), i(1))]),
        map(vec![(Value::null(), i(2))]),
        s("b"),
    ]);
    assert_eq!(v, expected);
}

// --- Aliases ---

#[test]
fn alias_copies_its_anchor() {
    let v = read("a: &x [1, 2]\nb: *x\n");
    let m = v.as_mapping().unwrap();
    assert_eq!(m.get(&s("b")), m.get(&s("a")));
    assert_eq!(m.get(&s("b")).unwrap().as_sequence().unwrap().len(), 2);
}

#[test]
fn undefined_alias_is_rejected() {
    assert_eq!(fails("*x\n"), (ErrorKind::Compose, "undefined alias 'x'".to_string()));
}

#[test]
fn anchors_do_not_outlive_their_document() {
    let e = api::parse_documents("--- &x 1\n--- *x\n", &FloatTable::new()).unwrap_err();
    assert_eq!(e.message(), "undefined alias 'x'");
}

#[test]
fn alias_copies_are_limited() {
    let limits = Limits { max_aliases: 6, ..Limits::default() };
    let options = ParseOptions::default().with_limits(limits);
    let fits = "a: &x [1, 2]\nb: [*x, *x]\n";
    assert!(api::parse_with(fits, &options, &FloatTable::new()).is_ok());
    let exceeds = "a: &x [1, 2]\nb: [*x, *x, *x]\n";
    let e = api::parse_with(exceeds, &options, &FloatTable::new()).unwrap_err();
    assert_eq!(e.kind(), ErrorKind::LimitExceeded);
    assert_eq!(e.message(), "maximum alias expansion exceeded");
}

// --- Merge keys ---

const MERGE: &str = "base: &b {x: 1, y: 2}\nmore: &m {y: 5, z: 6}\nuse:\n  <<: [*b, *m]\n  x: 9\n";

#[test]
fn merge_key_fills_missing_keys_in_order() {
    let options = ParseOptions::default().with_merge_keys(MergeKeys::On);
    let v = read_with(MERGE, &options);
    let merged = v.as_mapping().unwrap().get(&s("use")).unwrap();
    assert_eq!(*merged, map(vec![(s("x"), i(9)), (s("y"), i(2)), (s("z"), i(6))]));
}

#[test]
fn merge_key_is_an_ordinary_key_when_off() {
    let v = read(MERGE);
    let used = v.as_mapping().unwrap().get(&s("use")).unwrap();
    assert!(used.as_mapping().unwrap().contains_key(&s("<<")));
}

#[test]
fn merge_key_takes_mappings_only() {
    let options = ParseOptions::default().with_merge_keys(MergeKeys::On);
    let e = api::parse_with("<<: 1\n", &options, &FloatTable::new()).unwrap_err();
    assert_eq!(e.kind(), ErrorKind::Compose);
    assert_eq!(e.message(), "a merge key takes a mapping or a sequence of mappings");
}

// --- Schemas ---

#[test]
fn json_schema_is_strict() {
    let options = ParseOptions::default().with_schema(Schema::Json1_2);
    assert!(read_with("null\n", &options).is_null());
    assert_eq!(read_with("true\n", &options).as_bool(), Some(true));
    assert_eq!(read_with("-12\n", &options).as_int(), Some(-12));
    assert_eq!(read_with("True\n", &options).as_str(), Some("True"));
    assert_eq!(read_with("0x1f\n", &options).as_str(), Some("0x1f"));
    assert_eq!(read_with("007\n", &options).as_str(), Some("007"));
}

#[test]
fn yaml_1_1_schema_reads_old_words_and_octals() {
    let options = ParseOptions::default().with_schema(Schema::Yaml1_1);
    assert_eq!(read_with("no\n", &options).as_bool(), Some(false));
    assert_eq!(read_with("On\n", &options).as_bool(), Some(true));
    assert_eq!(read_with("010\n", &options).as_int(), Some(8));
    assert_eq!(read_with("10\n", &options).as_int(), Some(10));
}

#[test]
fn failsafe_schema_reads_strings_only() {
    let options = ParseOptions::default().with_schema(Schema::Failsafe);
    assert_eq!(read_with("42\n", &options).as_str(), Some("42"));
    assert_eq!(read_with("~\n", &options).as_str(), Some("~"));
}

// --- Floats ---

#[test]
fn known_floats_compose() {
    let v = read("[1.5, -2e3, .inf]\n");
    let items = v.as_sequence().unwrap();
    assert_eq!(items[0].as_float(), Some(Number::Float(1.5f64.to_bits())));
    assert_eq!(items[1].as_float(), Some(Number::Float((-2000f64).to_bits())));
    assert_eq!(items[2].as_float(), Some(Number::Float(f64::INFINITY.to_bits())));
}

#[test]
fn unknown_float_is_rejected() {
    let expected = "the value of the float '1.5' is not known";
    assert_eq!(fails("1.5\n"), (ErrorKind::Compose, expected.to_string()));
}

#[test]
fn float_texts_are_listed_in_order() {
    let options = ParseOptions::default();
    let events = parse_events("[1.5, 2, \"3.5\", 4e1, .nan]\n", &options).unwrap();
    assert_eq!(float_texts(&events, &options), vec!["1.5".to_string(), "4e1".to_string()]);
}

#[test]
fn float_table_gives_back_what_was_set() {
    let mut floats = FloatTable::new();
    floats.set_bits("1.5".to_string(), 7);
    floats.set_text(9, "2.5".to_string());
    assert_eq!(floats.bits_of("1.5"), Some(7));
    assert_eq!(floats.bits_of("2.5"), None);
    assert_eq!(floats.text_of(9), Some(&"2.5".to_string()));
    assert_eq!(floats.text_of(7), None);
}

#[test]
fn float_without_a_text_cannot_be_shown() {
    let e = api::to_string(&Value::float(1.5f64.to_bits()), &FloatTable::new()).unwrap_err();
    assert_eq!(e.kind(), ErrorKind::Compose);
    assert_eq!(e.message(), "the text of a float is not known");
    let e = api::to_string_documents(&[Value::float(0)], &FloatTable::new()).unwrap_err();
    assert_eq!(e.message(), "the text of a float is not known");
}

#[test]
fn floats_are_formatted_with_a_point() {
    assert_eq!(format_float(5f64.to_bits(), "5"), "5.0");
    assert_eq!(format_float(1e21f64.to_bits(), "1e21"), "1e21");
    assert_eq!(format_float(f64::NEG_INFINITY.to_bits(), ""), "-.inf");
    assert_eq!(format_float(f64::NAN.to_bits(), ""), ".nan");
}

// --- Emitting ---

#[test]
fn values_survive_a_round_trip() {
    let values = vec![
        Value::null(),
        Value::bool(false),
        i(i64::MIN),
        i(i64::MAX),
        Value::float(0.1f64.to_bits()),
        Value::float((-0f64).to_bits()),
        Value::float(1e300f64.to_bits()),
        Value::float(f64::NEG_INFINITY.to_bits()),
        s(""),
        s("plain text"),
        s("- dash"),
        s("tab\tand \"quotes\" and \\ and \u{1}"),
        s("line\nbreak\r"),
        s("true"),
        s("1.5"),
        s("a: b #c"),
        s("caf\u{e9} \u{1f600}"),
        Value::sequence(vec![]),
        Value::sequence(vec![i(1), Value::sequence(vec![s("x")]), map(vec![])]),
        map(vec![
            (s("k"), Value::null()),
            (i(1), s("one")),
            (Value::sequence(vec![i(1)]), map(vec![(s("deep"), s("er"))])),
        ]),
    ];
    let options = ParseOptions::default();
    for v in &values {
        let text = api::to_string(v, &shown(&values)).unwrap();
        assert!(text.ends_with('\n'));
        assert_eq!(text.matches('\n').count(), 1);
        assert_eq!(read(&text), *v, "{text}");
    }
    let stream = api::to_string_documents(&values, &shown(&values)).unwrap();
    let back = api::parse_documents(&stream, &written(&stream, &options)).unwrap();
    assert_eq!(back, values);
}

#[test]
fn values_survive_other_options_that_understand_them() {
    let v = map(vec![(s("a"), i(1)), (s("b"), Value::sequence(vec![s("x"), Value::null()]))]);
    let text = api::to_string(&v, &FloatTable::new()).unwrap();
    let merging = ParseOptions::default().with_merge_keys(MergeKeys::On);
    assert_eq!(read_with(&text, &merging), v);
    let old = ParseOptions::default().with_schema(Schema::Yaml1_1);
    assert_eq!(read_with(&text, &old), v);
    let word = api::to_string(&s("yes"), &FloatTable::new()).unwrap();
    assert_eq!(read(&word), s("yes"));
    assert_eq!(read_with(&word, &old), Value::bool(true));
}

#[test]
fn strings_that_read_as_a_marker_are_quoted() {
    for text in ["...", "... x", "... "] {
        assert!(string_needs_quoting(text));
        let written = api::to_string(&s(text), &FloatTable::new()).unwrap();
        assert_eq!(written, format!("\"{text}\"\n"));
        assert_eq!(read(&written), s(text));
        let list = Value::sequence(vec![s(text)]);
        let written = api::to_string(&list, &FloatTable::new()).unwrap();
        assert_eq!(read(&written), list);
    }
    assert!(!string_needs_quoting("...x"));
    assert!(!string_needs_quoting("...."));
    assert_eq!(read("...x").as_str(), Some("...x"));
    assert_eq!(read("[....]").as_sequence().unwrap()[0].as_str(), Some("...."));
}

#[test]
fn to_string_still_works_on_value() {
    let v = Value::integer(42);
    assert_eq!(api::to_string(&v, &FloatTable::new()).unwrap(), "42\n");
}

#[test]
fn quoted_strings_are_read_back() {
    for text in ["", "... x", "\"\\\"", "a\u{0}\u{1f}b\r\n\t", "\u{85}\u{2028}\u{10ffff}"] {
        assert_eq!(read(&double_quote(text)).as_str(), Some(text));
    }
}

#[test]
fn documents_are_emitted_after_markers() {
    let values = [i(1), s("x")];
    let text = api::to_string_documents(&values, &FloatTable::new()).unwrap();
    assert_eq!(text, "---\n1\n---\nx\n");
    let options = EmitOptions::round_trip();
    let same = api::to_string_documents_with(&values, &options, &FloatTable::new()).unwrap();
    assert_eq!(same, text);
}

#[test]
fn flow_form_is_exact() {
    let v = map(vec![
        (s("a"), Value::sequence(vec![i(1), i(-2)])),
        (s("b: c"), map(vec![(s("x"), Value::bool(true))])),
    ]);
    let text = api::to_string_with(&v, &EmitOptions::default(), &FloatTable::new()).unwrap();
    assert_eq!(text, "{a: [1, -2], \"b: c\": {x: true}}\n");
}

#[test]
fn quoting_escapes_control_characters() {
    assert!(string_needs_quoting("a\u{7f}"));
    assert!(!string_needs_quoting("a-b"));
    assert_eq!(double_quote("\u{1}\n\"\\"), "\"\\x01\\n\\\"\\\\\"");
}

// --- Streams ---

#[test]
fn tokens_begin_and_end_the_stream() {
    let tokens = tokenize("a:\n  - b\n  - c: d\n", Limits::default()).unwrap();
    assert_eq!(tokens.first().unwrap().kind, TokenKind::StreamStart);
    assert_eq!(tokens.last().unwrap().kind, TokenKind::StreamEnd);
    let opened = tokens
        .iter()
        .filter(|t| {
            t.kind == TokenKind::BlockSequenceStart || t.kind == TokenKind::BlockMappingStart
        })
        .count();
    let closed = tokens.iter().filter(|t| t.kind == TokenKind::BlockEnd).count();
    assert_eq!(opened, 3);
    assert_eq!(closed, 3);
}

#[test]
fn tokens_come_in_the_order_of_the_text() {
    let text = "%YAML 1.2\n---\n\u{e9}: &a [x, 'y']\n?\n  - |\n    z\n  - *a\n: {k: v}\n...\n";
    let tokens = tokenize(text, Limits::default()).unwrap();
    assert!(tokens.len() > 20);
    let mut last: usize = 0;
    for t in &tokens {
        assert!(last <= t.span.start.offset);
        assert!(t.span.start.offset <= t.span.end.offset);
        assert!(t.span.end.offset <= text.len());
        last = t.span.start.offset;
    }
}

#[test]
fn order_is_total() {
    let values = [
        Value::null(),
        Value::bool(false),
        Value::bool(true),
        i(-1),
        i(2),
        Value::float((-1f64).to_bits()),
        Value::float((-0f64).to_bits()),
        Value::float(0f64.to_bits()),
        Value::float(f64::NAN.to_bits()),
        s(""),
        s("a"),
        s("ab"),
        s("b"),
        Value::sequence(vec![]),
        Value::sequence(vec![i(1)]),
        Value::sequence(vec![i(1), i(0)]),
        Value::sequence(vec![i(2)]),
        map(vec![]),
        map(vec![(s("a"), i(1))]),
        map(vec![(s("a"), i(2))]),
        map(vec![(s("b"), i(0))]),
    ];
    for (m, a) in values.iter().enumerate() {
        for (n, b) in values.iter().enumerate() {
            assert_eq!(a.partial_cmp(b), Some(m.cmp(&n)));
            assert_eq!(a == b, m == n);
        }
    }
}

#[test]
fn open_flow_collection_leaves_block_collections_open() {
    let tokens = tokenize("a: [\n", Limits::default()).unwrap();
    assert!(tokens.iter().any(|t| t.kind == TokenKind::BlockMappingStart));
    assert!(!tokens.iter().any(|t| t.kind == TokenKind::BlockEnd));
    assert_eq!(fails("a: [\n").0, ErrorKind::Parse);
}

#[test]
fn events_are_balanced() {
    let events = parse_events("a: [b, {c: d}]\n---\ne\n", &ParseOptions::default()).unwrap();
    let mut open: Vec<bool> = Vec::new();
    for e in &events {
        match &e.kind {
            EventKind::SequenceStart { .. } => open.push(true),
            EventKind::MappingStart { .. } => open.push(false),
            EventKind::SequenceEnd => assert_eq!(open.pop(), Some(true)),
            EventKind::MappingEnd => assert_eq!(open.pop(), Some(false)),
            _ => {}
        }
    }
    assert!(open.is_empty());
    assert_eq!(events.first().unwrap().kind, EventKind::StreamStart);
    assert_eq!(events.last().unwrap().kind, EventKind::StreamEnd);
    let starts = events.iter().filter(|e| e.kind == EventKind::DocumentStart).count();
    assert_eq!(starts, 2);
}

#[test]
fn compose_gives_one_value_per_document() {
    let options = ParseOptions::default();
    let events = parse_events("a\n--- b\n...\n--- c\n", &options).unwrap();
    let values = compose(&events, &options, &FloatTable::new()).unwrap();
    assert_eq!(values, vec![s("a"), s("b"), s("c")]);
}

#[test]
fn truncated_event_stream_is_rejected() {
    let options = ParseOptions::default();
    let events = parse_events("[a, b]\n", &options).unwrap();
    let e = compose(&events[..4], &options, &FloatTable::new()).unwrap_err();
    assert_eq!(e.kind(), ErrorKind::Compose);
    assert_eq!(e.message(), "unterminated sequence in event stream");
    let e = compose(&[], &options, &FloatTable::new()).unwrap_err();
    assert_eq!(e.message(), "unexpected end of event stream");
    let e = compose(&events[1..], &options, &FloatTable::new()).unwrap_err();
    assert_eq!(e.message(), "expected stream start, found DocumentStart");
}

// --- Limits ---

#[test]
fn large_input_is_rejected() {
    let limits = Limits { max_input_bytes: 4, ..Limits::default() };
    let options = ParseOptions::default().with_limits(limits);
    assert!(api::parse_with("\u{e9}\u{e9}", &options, &FloatTable::new()).is_ok());
    let e = api::parse_with("\u{e9}\u{e9}a", &options, &FloatTable::new()).unwrap_err();
    assert_eq!(e.kind(), ErrorKind::LimitExceeded);
    assert_eq!(e.message(), "input exceeds the maximum allowed size");
    assert_eq!(e.span().unwrap().start.line, 1);
}

#[test]
fn deep_input_is_rejected() {
    let limits = Limits { max_depth: 1, ..Limits::default() };
    let options = ParseOptions::default().with_limits(limits);
    assert_eq!(read_with("[a]", &options), Value::sequence(vec![s("a")]));
    assert_eq!(read_with("k: v", &options), map(vec![(s("k"), s("v"))]));
    for deeper in ["[[a]]", "- - a", "k: [v]", "[k: v]", "[: v]", "&x [ !!seq [a]]"] {
        let e = api::parse_with(deeper, &options, &FloatTable::new()).unwrap_err();
        assert_eq!(e.kind(), ErrorKind::LimitExceeded);
        assert_eq!(e.message(), "maximum nesting depth exceeded");
    }
    let limits = Limits { max_depth: 0, ..Limits::default() };
    let options = ParseOptions::default().with_limits(limits);
    assert_eq!(read_with("a", &options), s("a"));
    let e = api::parse_with("&x []", &options, &FloatTable::new()).unwrap_err();
    assert_eq!(e.kind(), ErrorKind::LimitExceeded);
    assert_eq!(e.span().unwrap().start.column, 1);
}

#[test]
fn single_pair_counts_its_key() {
    let limits = Limits { max_depth: 2, ..Limits::default() };
    let options = ParseOptions::default().with_limits(limits);
    let pair = map(vec![(s("k"), s("v"))]);
    assert_eq!(read_with("[k: v]", &options), Value::sequence(vec![pair]));
    assert!(api::parse_with("[[k]]", &options, &FloatTable::new()).is_ok());
    let e = api::parse_with("[[k]: v]", &options, &FloatTable::new()).unwrap_err();
    assert_eq!(e.kind(), ErrorKind::LimitExceeded);
}

#[test]
fn higher_limits_change_no_success() {
    let input = "- &a [x]\n- [*a, {k: [v]}]\n";
    let tight = Limits { max_depth: 4, max_input_bytes: input.len(), max_aliases: 2 };
    let options = ParseOptions::default().with_limits(tight);
    let events = parse_events(input, &options).unwrap();
    let v = read_with(input, &options);
    for limits in [
        Limits { max_depth: 5, ..tight },
        Limits { max_input_bytes: usize::MAX, ..tight },
        Limits { max_aliases: 3, ..tight },
        Limits::default(),
    ] {
        let options = ParseOptions::default().with_limits(limits);
        assert_eq!(parse_events(input, &options).unwrap(), events);
        assert_eq!(read_with(input, &options), v);
    }
    for limits in [
        Limits { max_depth: 3, ..tight },
        Limits { max_input_bytes: input.len() - 1, ..tight },
        Limits { max_aliases: 1, ..tight },
    ] {
        let options = ParseOptions::default().with_limits(limits);
        let e = api::parse_with(input, &options, &FloatTable::new()).unwrap_err();
        assert_eq!(e.kind(), ErrorKind::LimitExceeded);
    }
}

#[test]
fn block_collections_are_closed_where_flow_collections_are() {
    let balance = |input: &str| -> i32 {
        let mut n = 0;
        for t in tokenize(input, Limits::default()).unwrap() {
            match t.kind {
                TokenKind::BlockSequenceStart | TokenKind::BlockMappingStart => n += 1,
                TokenKind::BlockEnd => n -= 1,
                _ => {}
            }
            assert!(n >= 0);
        }
        n
    };
    assert_eq!(balance("a:\n  - b: [c]\n  - d\n"), 0);
    assert_eq!(balance("a: ]\n"), 0);
    assert_eq!(balance("a: [b\n"), 1);
}

// --- Tokens one by one ---

#[test]
fn pulled_tokens_are_the_tokens_of_the_text() {
    let all = tokenize("a: [1, 'two']\nb: c\n", Limits::default()).unwrap();
    let mut scanner = Scanner::new("a: [1, 'two']\nb: c\n", Limits::default());
    for expected in &all {
        assert_eq!(scanner.next_token().unwrap().as_ref(), Some(expected));
    }
    assert_eq!(scanner.next_token().unwrap(), None);
    assert_eq!(scanner.next_token().unwrap(), None);

    let input = "a: [b]\nc: 'open\n";
    let fault = tokenize(input, Limits::default()).unwrap_err();
    let mut scanner = Scanner::new(input, Limits::default());
    let found = loop {
        match scanner.next_token() {
            Ok(t) => assert!(t.is_some()),
            Err(e) => break e,
        }
    };
    assert_eq!(found.message(), fault.message());
    assert_eq!(found.span(), fault.span());
}

#[test]
fn scanner_after_an_error() {
    let mut scanner = Scanner::new("a#b", Limits { max_input_bytes: 2, ..Limits::default() });
    assert_eq!(scanner.next_token().unwrap_err().kind(), ErrorKind::LimitExceeded);
    assert_eq!(scanner.next_token().unwrap(), None);

    let mut scanner = Scanner::new("[]#b", Limits::default());
    for _ in 0..3 {
        assert!(scanner.next_token().unwrap().is_some());
    }
    let first = scanner.next_token().unwrap_err();
    assert_eq!(first.message(), "a comment must be preceded by whitespace");
    let second = scanner.next_token().unwrap_err();
    assert_eq!(second.message(), first.message());
    assert_eq!(second.span(), first.span());
}

#[test]
fn tokens_do_not_overlap() {
    let tokens = tokenize("a: &x !!str b\nc: [d, 'e']\n", Limits::default()).unwrap();
    for pair in tokens.windows(2) {
        assert!(pair[0].span.end.offset <= pair[1].span.start.offset);
    }
}

// --- Content through the parser ---

#[test]
fn scalars_and_aliases_pass_through_in_order() {
    let input = "- &a x\n- *a\n-\n- {k: 'v', ? w}\n";
    let mut leaves = Vec::new();
    for t in tokenize(input, Limits::default()).unwrap() {
        match t.kind {
            TokenKind::Scalar { value, .. } => leaves.push((value, t.span)),
            TokenKind::Alias(name) => leaves.push((name, t.span)),
            _ => {}
        }
    }
    let mut found = Vec::new();
    for e in parse_events(input, &ParseOptions::default()).unwrap() {
        match e.kind {
            EventKind::Scalar { value, .. } if !value.is_empty() => found.push((value, e.span)),
            EventKind::Alias(name) => found.push((name, e.span)),
            _ => {}
        }
    }
    assert_eq!(found, leaves);
    assert_eq!(found.len(), 5);
}

#[test]
fn anchor_and_tag_come_in_either_order() {
    let options = ParseOptions::default();
    let kinds = |input: &str| -> Vec<EventKind> {
        parse_events(input, &options).unwrap().into_iter().map(|e| e.kind).collect()
    };
    assert_eq!(kinds("&a !!str x"), kinds("!!str &a x"));
    assert_eq!(kinds("- &a !!seq [b]"), kinds("- !!seq &a [b]"));
}

#[test]
fn line_ends_do_not_matter() {
    let text = "a: 'b\n  c'\n# note\nd: |\n  e\n\n  f\n- \"g\\\n  h\"\n...\n";
    let text = text.replace("\n- ", "\ni: ");
    let kinds = |input: &str| -> Vec<TokenKind> {
        tokenize(input, Limits::default()).unwrap().into_iter().map(|t| t.kind).collect()
    };
    assert_eq!(kinds(&text.replace('\n', "\r\n")), kinds(&text));
    assert_eq!(kinds(&format!("# first\n{text}")), kinds(&text));
}

// --- Metadata ---

#[test]
fn parsed_values_carry_no_metadata() {
    let v = read("- a\n- {k: [v]}\n- &x b\n- *x\n");
    assert!(v.meta().is_none());
    for item in v.as_sequence().unwrap() {
        assert!(item.meta().is_none());
    }
    let inner = &v.as_sequence().unwrap()[1];
    for (k, v) in inner.as_mapping().unwrap().iter() {
        assert!(k.meta().is_none() && v.meta().is_none());
    }
}

#[test]
fn copies_keep_the_metadata_of_parts() {
    let noted = || s("a").with_meta(Meta { anchor: Some("x".to_string()), ..Meta::default() });
    let v = Value::sequence(vec![map(vec![(noted(), noted())]), noted()]);
    let copy = v.clone();
    let items = copy.as_sequence().unwrap();
    assert_eq!(items[1].meta().unwrap().anchor.as_deref(), Some("x"));
    for (k, v) in items[0].as_mapping().unwrap().iter() {
        assert_eq!(k.meta().unwrap().anchor.as_deref(), Some("x"));
        assert_eq!(v.meta().unwrap().anchor.as_deref(), Some("x"));
    }
    let mut m = Mapping::new();
    m.insert(noted(), s("old"));
    m.insert(s("a"), noted());
    let pairs = m.iter();
    assert!(pairs[0].0.meta().is_some() && pairs[0].1.meta().is_some());
}

// --- Wording through std ---

#[test]
fn invalid_version_is_quoted_in_the_message() {
    let expected = "invalid %YAML version \"1.x\"";
    assert_eq!(fails("%YAML 1.x\n--- a\n"), (ErrorKind::Scan, expected.to_string()));
}

#[test]
fn surrogate_escape_is_rejected() {
    let expected = "escape resolves to invalid Unicode scalar U+D800";
    assert_eq!(fails("\"\\ud800\"\n"), (ErrorKind::Scan, expected.to_string()));
    assert_eq!(read("\"\\u00e9\\U0001f600\"\n").as_str(), Some("\u{e9}\u{1f600}"));
}

// --- Chomping ---

#[test]
fn chomping_differs_in_trailing_breaks_only() {
    assert_eq!(read("|-\n  a\n  b\n\n\n").as_str(), Some("a\nb"));
    assert_eq!(read("|\n  a\n  b\n\n\n").as_str(), Some("a\nb\n"));
    assert_eq!(read("|+\n  a\n  b\n\n\n").as_str(), Some("a\nb\n\n\n"));
    assert_eq!(read(">\n  a\n  b\n").as_str(), Some("a b\n"));
}
