use yaml2::error::{Position, Span};
use yaml2::meta::ScalarStyle;
use yaml2::scanner::token::{Token, TokenKind};

#[test]
fn token_holds_kind_and_span() {
    let span = Span::new(Position::new(0, 1, 1), Position::new(1, 1, 2));
    let t = Token::new(TokenKind::FlowEntry, span);
    assert_eq!(t.kind, TokenKind::FlowEntry);
    assert_eq!(t.span, span);
}

#[test]
fn block_token_kinds_exist() {
    let span = Span::new(Position::new(0, 1, 1), Position::new(0, 1, 1));
    assert_eq!(
        Token::new(TokenKind::BlockSequenceStart, span).kind,
        TokenKind::BlockSequenceStart
    );
    assert_eq!(
        Token::new(TokenKind::BlockMappingStart, span).kind,
        TokenKind::BlockMappingStart
    );
    assert_eq!(
        Token::new(TokenKind::BlockEnd, span).kind,
        TokenKind::BlockEnd
    );
    assert_eq!(
        Token::new(TokenKind::BlockEntry, span).kind,
        TokenKind::BlockEntry
    );
}

#[test]
fn scalar_kind_carries_value_and_style() {
    let kind = TokenKind::Scalar {
        value: "hi".to_string(),
        style: ScalarStyle::Plain,
    };
    assert_eq!(
        kind,
        TokenKind::Scalar {
            value: "hi".to_string(),
            style: ScalarStyle::Plain
        }
    );
}
