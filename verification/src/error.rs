//! Errors, source positions and spans.

use vstd::prelude::*;

verus! {

/// A location in the source: byte offset (0-based), line and column (1-based).
#[derive(Debug, Clone, Copy, PartialEq, Eq, Structural, Default)]
pub struct Position {
    pub offset: usize,
    pub line: usize,
    pub column: usize,
}

impl Position {
    pub fn new(offset: usize, line: usize, column: usize) -> (p: Self)
        ensures
            p == (Position { offset, line, column }),
    {
        Self { offset, line, column }
    }

    /// The position at the very start of any input.
    pub fn start() -> (p: Self)
        ensures
            p == (Position { offset: 0, line: 1, column: 1 }),
    {
        Self { offset: 0, line: 1, column: 1 }
    }
}

/// A half-open range in the source.
#[derive(Debug, Clone, Copy, PartialEq, Eq, Structural, Default)]
pub struct Span {
    pub start: Position,
    pub end: Position,
}

impl Span {
    pub fn new(start: Position, end: Position) -> (s: Self)
        ensures
            s == (Span { start, end }),
    {
        Self { start, end }
    }
}

/// The stage that rejected the input.
#[derive(Debug, Clone, Copy, PartialEq, Eq, Structural)]
pub enum ErrorKind {
    /// The text does not split into tokens.
    Scan,
    /// The tokens do not form a document.
    Parse,
    /// The events do not form a value.
    Compose,
    /// One of the configured limits was passed.
    LimitExceeded,
}

/// What went wrong, in words, and where.
#[derive(Debug, Clone)]
pub struct Error {
    kind: ErrorKind,
    message: String,
    span: Option<Span>,
}

/// The mathematical reading of an [`Error`].
#[verifier::ext_equal]
pub struct Fault {
    pub kind: ErrorKind,
    pub message: Seq<char>,
    pub span: Option<Span>,
}

impl View for Error {
    type V = Fault;

    closed spec fn view(&self) -> Fault {
        Fault { kind: self.kind, message: self.message@, span: self.span }
    }
}

/// The fault of the given kind and wording at a span.
pub open spec fn fault(kind: ErrorKind, message: Seq<char>, span: Span) -> Fault {
    Fault { kind, message, span: Some(span) }
}

/// The fault of the given kind and wording with no location.
pub open spec fn bare_fault(kind: ErrorKind, message: Seq<char>) -> Fault {
    Fault { kind, message, span: None }
}

impl Error {
    /// An error without a location.
    pub fn new(kind: ErrorKind, message: &str) -> (e: Self)
        ensures
            e@ == bare_fault(kind, message@),
    {
        Self { kind, message: message.to_string(), span: None }
    }

    /// The same error, located at `span`.
    pub fn with_span(self, span: Span) -> (e: Self)
        ensures
            e@ == (Fault { span: Some(span), ..self@ }),
    {
        Self { kind: self.kind, message: self.message, span: Some(span) }
    }

    /// An error located at `span`.
    pub fn at(kind: ErrorKind, message: &str, span: Span) -> (e: Self)
        ensures
            e@ == fault(kind, message@, span),
    {
        Self::new(kind, message).with_span(span)
    }

    pub fn kind(&self) -> (k: ErrorKind)
        ensures
            k == self@.kind,
    {
        self.kind
    }

    pub fn message(&self) -> (m: &str)
        ensures
            m@ == self@.message,
    {
        self.message.as_str()
    }

    pub fn span(&self) -> (s: Option<Span>)
        ensures
            s == self@.span,
    {
        self.span
    }
}

} // verus!
