use yaml2::error::Position;
use yaml2::scanner::reader::Reader;

#[test]
fn new_reader_is_at_start() {
    let r = Reader::new("abc");
    assert_eq!(r.position(), Position::new(0, 1, 1));
    assert!(!r.is_eof());
}

#[test]
fn peek_does_not_consume() {
    let r = Reader::new("abc");
    assert_eq!(r.peek(), Some('a'));
    assert_eq!(r.peek(), Some('a'));
}

#[test]
fn empty_input_is_eof() {
    let r = Reader::new("");
    assert!(r.is_eof());
    assert_eq!(r.peek(), None);
}

#[test]
fn advance_returns_and_consumes_chars() {
    let mut r = Reader::new("ab");
    assert_eq!(r.advance(), Some('a'));
    assert_eq!(r.advance(), Some('b'));
    assert_eq!(r.advance(), None);
    assert!(r.is_eof());
}

#[test]
fn advance_tracks_column_and_offset() {
    let mut r = Reader::new("ab");
    r.advance();
    assert_eq!(r.position(), Position::new(1, 1, 2));
}

#[test]
fn newline_advances_line_and_resets_column() {
    let mut r = Reader::new("a\nb");
    r.advance(); // a
    r.advance(); // \n
    assert_eq!(r.position(), Position::new(2, 2, 1));
    assert_eq!(r.peek(), Some('b'));
}

#[test]
fn crlf_counts_as_one_line_break() {
    let mut r = Reader::new("a\r\nb");
    r.advance(); // a
    r.advance(); // \r
    r.advance(); // \n
    assert_eq!(r.position(), Position::new(3, 2, 1));
    assert_eq!(r.peek(), Some('b'));
}

#[test]
fn lone_cr_at_eof_is_a_line_break() {
    let mut r = Reader::new("a\r");
    r.advance(); // a
    r.advance(); // \r at EOF -> lone CR
    assert_eq!(r.position().line, 2);
    assert_eq!(r.position().column, 1);
    assert!(r.is_eof());
}

#[test]
fn lone_cr_is_a_line_break() {
    let mut r = Reader::new("a\rb");
    r.advance(); // a
    r.advance(); // \r
    assert_eq!(r.position().line, 2);
    assert_eq!(r.position().column, 1);
}

#[test]
fn multibyte_char_advances_offset_by_utf8_len() {
    let mut r = Reader::new("é!"); // 'é' is 2 bytes
    r.advance();
    assert_eq!(r.position(), Position::new(2, 1, 2));
    assert_eq!(r.peek(), Some('!'));
}

#[test]
fn peek_nth_and_starts_with() {
    let r = Reader::new("abc");
    assert_eq!(r.peek_nth(0), Some('a'));
    assert_eq!(r.peek_nth(2), Some('c'));
    assert_eq!(r.peek_nth(3), None);
    assert!(r.starts_with("abc"));
    assert!(!r.starts_with("abd"));
}
