use yaml2::error::{Position, Span};

#[test]
fn position_start_is_line_one_column_one() {
    let p = Position::start();
    assert_eq!(p.offset, 0);
    assert_eq!(p.line, 1);
    assert_eq!(p.column, 1);
}

#[test]
fn span_exposes_start_and_end() {
    let span = Span::new(Position::new(0, 1, 1), Position::new(5, 1, 6));
    assert_eq!(span.start.column, 1);
    assert_eq!(span.end.offset, 5);
}
