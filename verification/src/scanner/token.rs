//! The tokens that the scanner produces.

use crate::error::Span;
use crate::meta::ScalarStyle;
use vstd::prelude::*;

verus! {

/// A lexical token with its source span.
#[derive(Debug, Clone, PartialEq)]
pub struct Token {
    pub kind: TokenKind,
    pub span: Span,
}

/// The lexical categories.
#[derive(Debug, Clone, PartialEq)]
pub enum TokenKind {
    StreamStart,
    StreamEnd,
    /// `---`
    DocumentStart,
    /// `...`
    DocumentEnd,
    /// Start of an indentation-based block sequence.
    BlockSequenceStart,
    /// Start of an indentation-based block mapping.
    BlockMappingStart,
    /// End of a block sequence or mapping (one per opened block level).
    BlockEnd,
    /// A block sequence entry indicator (`-`).
    BlockEntry,
    /// `[`
    FlowSequenceStart,
    /// `]`
    FlowSequenceEnd,
    /// `{`
    FlowMappingStart,
    /// `}`
    FlowMappingEnd,
    /// `,`
    FlowEntry,
    /// `?`, or the start of an implicit key.
    Key,
    /// `:`
    Value,
    /// `&name`
    Anchor(String),
    /// `*name`
    Alias(String),
    /// `!tag`, resolved by the tag handles in force.
    Tag(String),
    /// A scalar value with the style it was written in.
    Scalar { value: String, style: ScalarStyle },
}

/// The mathematical reading of a [`TokenKind`].
#[verifier::ext_equal]
pub enum Lexeme {
    StreamStart,
    StreamEnd,
    DocumentStart,
    DocumentEnd,
    BlockSequenceStart,
    BlockMappingStart,
    BlockEnd,
    BlockEntry,
    FlowSequenceStart,
    FlowSequenceEnd,
    FlowMappingStart,
    FlowMappingEnd,
    FlowEntry,
    Key,
    Value,
    Anchor(Seq<char>),
    Alias(Seq<char>),
    Tag(Seq<char>),
    Scalar { value: Seq<char>, style: ScalarStyle },
}

/// The mathematical reading of a [`Token`].
#[verifier::ext_equal]
pub struct Tok {
    pub kind: Lexeme,
    pub span: Span,
}

impl View for TokenKind {
    type V = Lexeme;

    open spec fn view(&self) -> Lexeme {
        match *self {
            TokenKind::StreamStart => Lexeme::StreamStart,
            TokenKind::StreamEnd => Lexeme::StreamEnd,
            TokenKind::DocumentStart => Lexeme::DocumentStart,
            TokenKind::DocumentEnd => Lexeme::DocumentEnd,
            TokenKind::BlockSequenceStart => Lexeme::BlockSequenceStart,
            TokenKind::BlockMappingStart => Lexeme::BlockMappingStart,
            TokenKind::BlockEnd => Lexeme::BlockEnd,
            TokenKind::BlockEntry => Lexeme::BlockEntry,
            TokenKind::FlowSequenceStart => Lexeme::FlowSequenceStart,
            TokenKind::FlowSequenceEnd => Lexeme::FlowSequenceEnd,
            TokenKind::FlowMappingStart => Lexeme::FlowMappingStart,
            TokenKind::FlowMappingEnd => Lexeme::FlowMappingEnd,
            TokenKind::FlowEntry => Lexeme::FlowEntry,
            TokenKind::Key => Lexeme::Key,
            TokenKind::Value => Lexeme::Value,
            TokenKind::Anchor(name) => Lexeme::Anchor(name@),
            TokenKind::Alias(name) => Lexeme::Alias(name@),
            TokenKind::Tag(tag) => Lexeme::Tag(tag@),
            TokenKind::Scalar { value, style } => Lexeme::Scalar { value: value@, style },
        }
    }
}

impl View for Token {
    type V = Tok;

    open spec fn view(&self) -> Tok {
        Tok { kind: self.kind@, span: self.span }
    }
}

impl Token {
    pub fn new(kind: TokenKind, span: Span) -> (t: Self)
        ensures
            t == (Token { kind, span }),
    {
        Self { kind, span }
    }
}

/// The readings of a sequence of tokens.
pub open spec fn toks(tokens: Seq<Token>) -> Seq<Tok> {
    Seq::new(tokens.len(), |i: int| tokens[i]@)
}

} // verus!
