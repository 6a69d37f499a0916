use yaml2::options::{EmitOptions, Limits, MergeKeys, ParseOptions, Schema};

#[test]
fn parse_options_defaults() {
    let o = ParseOptions::default();
    assert_eq!(o.schema, Schema::Core1_2);
    assert_eq!(o.merge_keys, MergeKeys::Auto);
    assert!(!o.preserve_formatting);
    assert_eq!(o.limits, Limits::default());
}

#[test]
fn preserve_formatting_constructor() {
    let o = ParseOptions::preserve_formatting();
    assert!(o.preserve_formatting);
    assert_eq!(o.schema, Schema::Core1_2);
}

#[test]
fn builder_methods() {
    let o = ParseOptions::default()
        .with_schema(Schema::Yaml1_1)
        .with_merge_keys(MergeKeys::On);
    assert_eq!(o.schema, Schema::Yaml1_1);
    assert_eq!(o.merge_keys, MergeKeys::On);
}

#[test]
fn merge_keys_auto_follows_schema() {
    assert!(!MergeKeys::Auto.enabled_for(Schema::Core1_2));
    assert!(MergeKeys::Auto.enabled_for(Schema::Yaml1_1));
    assert!(MergeKeys::On.enabled_for(Schema::Core1_2));
    assert!(!MergeKeys::Off.enabled_for(Schema::Yaml1_1));
}

#[test]
fn emit_options_round_trip_constructor() {
    assert!(!EmitOptions::default().round_trip);
    assert!(EmitOptions::round_trip().round_trip);
    assert_eq!(EmitOptions::default().indent, 2);
}
