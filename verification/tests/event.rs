use yaml2::error::{Position, Span};
use yaml2::event::{Event, EventKind};
use yaml2::meta::ScalarStyle;

#[test]
fn event_holds_kind_and_span() {
    let span = Span::new(Position::new(0, 1, 1), Position::new(0, 1, 1));
    let e = Event::new(EventKind::StreamStart, span);
    assert_eq!(e.kind, EventKind::StreamStart);
    assert_eq!(e.span, span);
}

#[test]
fn scalar_event_carries_value_style_anchor_tag() {
    let kind = EventKind::Scalar {
        value: "x".to_string(),
        style: ScalarStyle::Plain,
        anchor: Some("a".to_string()),
        tag: Some("!t".to_string()),
    };
    assert_eq!(
        kind,
        EventKind::Scalar {
            value: "x".to_string(),
            style: ScalarStyle::Plain,
            anchor: Some("a".to_string()),
            tag: Some("!t".to_string()),
        }
    );
}
