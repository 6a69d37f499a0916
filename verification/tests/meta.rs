use yaml2::meta::{Comments, Meta, ScalarStyle};

#[test]
fn scalar_style_defaults_to_plain() {
    assert_eq!(ScalarStyle::default(), ScalarStyle::Plain);
}

#[test]
fn meta_default_is_empty() {
    let m = Meta::default();
    assert!(m.comments.leading.is_empty());
    assert!(m.comments.trailing.is_none());
    assert_eq!(m.blank_lines_before, 0);
    assert_eq!(m.style, ScalarStyle::Plain);
    assert!(m.span.is_none());
    assert!(m.anchor.is_none());
    assert!(m.tag.is_none());
}
