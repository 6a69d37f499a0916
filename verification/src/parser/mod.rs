//! The event parser: tokens to events, by recursive descent.

pub mod carried;
pub mod grammar;
pub mod leaves;
pub mod limits;
pub mod refused;
pub mod shape;
pub mod spelled;
pub mod swap;

use crate::error::{Error, ErrorKind, Span};
use crate::event;
use crate::event::{Event, EventKind, Happening};
use crate::meta::ScalarStyle;
use crate::options::ParseOptions;
use crate::scanner;
use crate::scanner::token;
use crate::scanner::token::{Token, TokenKind};
use crate::scanner::tokenize;
use crate::text;
use vstd::prelude::*;

verus! {

/// The events of a text, or the fault that stops the scan or the parse.
pub open spec fn events(text: Seq<char>, options: ParseOptions) -> Result<
    Seq<event::Ev>,
    crate::error::Fault,
> {
    match scanner::model::tokens(text, options.limits) {
        Err(f) => Err(f),
        Ok(ts) => grammar::stream(ts, options.limits.max_depth as nat),
    }
}

/// Parses `input` into a complete event vector.
pub fn parse_events(input: &str, options: &ParseOptions) -> (res: Result<Vec<Event>, Error>)
    ensures
        match events(input@, *options) {
            Ok(evs) => res matches Ok(v) && event::evs(v@) == evs,
            Err(f) => res matches Err(e) && e@ == f,
        },
{
    match tokenize(input, options.limits) {
        Err(e) => Err(e),
        Ok(tokens) => {
            let mut state = ParserState {
                tokens,
                pos: 0,
                events: Vec::new(),
                depth: 0,
                max_depth: options.limits.max_depth,
            };
            match state.parse_stream() {
                Err(e) => Err(e),
                Ok(()) => Ok(state.events),
            }
        },
    }
}

/// A pull-based event parser over an input document.
pub struct Parser {
    events: Vec<Event>,
    next: usize,
}

impl Parser {
    /// All events of the input.
    pub closed spec fn events(&self) -> Seq<event::Ev> {
        event::evs(self.events@)
    }

    /// How many events have been taken.
    pub closed spec fn taken(&self) -> int {
        self.next as int
    }

    pub closed spec fn wf(&self) -> bool {
        self.next <= self.events.len()
    }

    /// Parses `input` eagerly; subsequent `next_event` calls drain the result.
    pub fn new(input: &str, options: &ParseOptions) -> (res: Result<Self, Error>)
        ensures
            match events(input@, *options) {
                Ok(evs) => res matches Ok(p) && p.wf() && p.events() == evs && p.taken() == 0,
                Err(f) => res matches Err(e) && e@ == f,
            },
    {
        match parse_events(input, options) {
            Ok(events) => Ok(Self { events, next: 0 }),
            Err(e) => Err(e),
        }
    }

    /// Returns the next event, or `None` once the stream is exhausted.
    pub fn next_event(&mut self) -> (e: Option<Event>)
        requires
            old(self).wf(),
        ensures
            final(self).wf(),
            final(self).events() == old(self).events(),
            match e {
                Some(e) => {
                    &&& old(self).taken() < old(self).events().len()
                    &&& e@ == old(self).events()[old(self).taken()]
                    &&& final(self).taken() == old(self).taken() + 1
                },
                None => {
                    &&& old(self).taken() == old(self).events().len()
                    &&& final(self).taken() == old(self).taken()
                },
            },
    {
        if self.next < self.events.len() {
            let e = self.events[self.next].clone();
            self.next = self.next + 1;
            Some(e)
        } else {
            None
        }
    }
}

/// Internal recursive-descent state.
struct ParserState {
    tokens: Vec<Token>,
    pos: usize,
    events: Vec<Event>,
    depth: usize,
    max_depth: usize,
}

impl ParserState {
    spec fn ts(&self) -> Seq<token::Tok> {
        token::toks(self.tokens@)
    }

    spec fn evs(&self) -> Seq<event::Ev> {
        event::evs(self.events@)
    }

    /// How many levels of collections may still be opened.
    spec fn room(&self) -> nat {
        (self.max_depth - self.depth) as nat
    }

    spec fn wf(&self) -> bool {
        self.pos <= self.tokens.len() && self.depth <= self.max_depth
    }

    /// The step from `before` to here did what `parsed` says, and left tokens
    /// and depth alone. Where it failed, the events that it had made are there, and
    /// the position is that of the failure.
    spec fn did(&self, before: &ParserState, res: Result<(), Error>, parsed: grammar::Parsed) -> bool {
        &&& self.wf()
        &&& self.tokens == before.tokens
        &&& self.depth == before.depth
        &&& self.max_depth == before.max_depth
        &&& match parsed {
            Ok((evs, at)) => {
                &&& res is Ok
                &&& self.evs() == before.evs() + evs
                &&& self.pos == at
                &&& before.pos <= self.pos
            },
            Err(h) => {
                &&& res matches Err(e) && e@ == h.fault
                &&& self.evs() == before.evs() + h.evs
                &&& self.pos == h.pos
            },
        }
    }

    fn peek(&self) -> (k: Option<&TokenKind>)
        requires
            self.wf(),
        ensures
            match k {
                Some(k) => self.pos < self.tokens.len() && *k == self.tokens@[self.pos as int].kind
                    && grammar::kind_at(self.ts(), self.pos as int) == Some(k@),
                None => self.pos == self.tokens.len() && grammar::kind_at(
                    self.ts(),
                    self.pos as int,
                ) is None,
            },
    {
        if self.pos < self.tokens.len() {
            Some(&self.tokens[self.pos].kind)
        } else {
            None
        }
    }

    /// The span of the current token (or the last token's span at end of input).
    fn span(&self) -> (s: Span)
        requires
            self.wf(),
        ensures
            s == grammar::span_at(self.ts(), self.pos as int),
    {
        if self.pos < self.tokens.len() {
            self.tokens[self.pos].span
        } else if self.tokens.len() > 0 {
            self.tokens[self.tokens.len() - 1].span
        } else {
            let origin = crate::error::Position::new(0, 0, 0);
            Span::new(origin, origin)
        }
    }

    /// Passes over the current token.
    fn bump(&mut self)
        requires
            old(self).wf(),
            old(self).pos < old(self).tokens.len(),
        ensures
            *final(self) == (ParserState { pos: (old(self).pos + 1) as usize, ..*old(self) }),
    {
        self.pos = self.pos + 1;
    }

    fn emit(&mut self, kind: EventKind, span: Span)
        ensures
            final(self).evs() == old(self).evs() + seq![event::Ev { kind: kind@, span }],
            *final(self) == (ParserState { events: final(self).events, ..*old(self) }),
    {
        self.events.push(Event::new(kind, span));
        assert(self.evs() == old(self).evs() + seq![event::Ev { kind: kind@, span }]);
    }

    fn emit_empty_scalar(&mut self)
        requires
            old(self).wf(),
        ensures
            final(self).evs() == old(self).evs() + grammar::empty_node(
                old(self).ts(),
                old(self).pos as int,
                grammar::bare(),
            ),
            *final(self) == (ParserState { events: final(self).events, ..*old(self) }),
    {
        let span = self.span();
        self.emit(
            EventKind::Scalar {
                value: String::new(),
                style: ScalarStyle::Plain,
                anchor: None,
                tag: None,
            },
            span,
        );
        assert(self.evs() == old(self).evs() + grammar::empty_node(
            old(self).ts(),
            old(self).pos as int,
            grammar::bare(),
        ));
    }

    fn error(&self, message: &str) -> (e: Error)
        requires
            self.wf(),
        ensures
            e@ == grammar::parse_fault(self.ts(), self.pos as int, message@),
    {
        Error::at(ErrorKind::Parse, message, self.span())
    }

    /// The error of a collection that nests too deep.
    fn depth_error(&self) -> (e: Error)
        requires
            self.wf(),
        ensures
            e@ == grammar::too_deep(self.ts(), self.pos as int).fault,
    {
        Error::at(ErrorKind::LimitExceeded, "maximum nesting depth exceeded", self.span())
    }

    /// True when the node at the current token, behind its properties, is a collection.
    fn at_collection(&self) -> (b: bool)
        requires
            self.wf(),
        ensures
            b == grammar::is_collection(self.ts(), self.pos as int),
    {
        let mut i: usize = self.pos;
        while i < self.tokens.len() && matches!(
            self.tokens[i].kind,
            TokenKind::Anchor(_) | TokenKind::Tag(_)
        )
            invariant
                self.wf(),
                i <= self.tokens.len(),
                grammar::past_properties(self.ts(), i as int) == grammar::past_properties(
                    self.ts(),
                    self.pos as int,
                ),
            decreases self.tokens.len() - i,
        {
            i = i + 1;
        }
        i < self.tokens.len() && matches!(
            self.tokens[i].kind,
            TokenKind::BlockSequenceStart
                | TokenKind::BlockMappingStart
                | TokenKind::BlockEntry
                | TokenKind::FlowSequenceStart
                | TokenKind::FlowMappingStart
        )
    }

    /// Parses a node. A collection needs a level that is still free.
    fn parse_node(&mut self) -> (res: Result<(), Error>)
        requires
            old(self).wf(),
        ensures
            final(self).did(
                old(self),
                res,
                grammar::node(old(self).ts(), old(self).pos as int, old(self).room()),
            ),
        decreases old(self).room(), 1int,
    {
        if self.depth >= self.max_depth && self.at_collection() {
            let e = self.depth_error();
            assert(self.evs() == old(self).evs() + Seq::<event::Ev>::empty());
            return Err(e);
        }
        self.parse_node_inner()
    }

    /// Parses a node's properties.
    fn parse_properties(&mut self) -> (res: Result<(Option<String>, Option<String>), Error>)
        requires
            old(self).wf(),
        ensures
            final(self).wf(),
            *final(self) == (ParserState { pos: final(self).pos, ..*old(self) }),
            match grammar::properties(old(self).ts(), old(self).pos as int, grammar::bare()) {
                Ok((props, at)) => {
                    &&& res matches Ok(found)
                    &&& text::optional_text(found.0) == props.anchor
                    &&& text::optional_text(found.1) == props.tag
                    &&& final(self).pos == at
                    &&& old(self).pos <= final(self).pos
                },
                Err(h) => {
                    &&& res matches Err(e) && e@ == h.fault
                    &&& final(self).pos == h.pos
                    &&& h.evs == Seq::<event::Ev>::empty()
                },
            },
    {
        let mut anchor: Option<String> = None;
        let mut tag: Option<String> = None;
        let ghost ts = self.ts();
        loop
            invariant
                self.wf(),
                *self == (ParserState { pos: self.pos, ..*old(self) }),
                ts == old(self).ts(),
                old(self).pos <= self.pos,
                grammar::properties(ts, old(self).pos as int, grammar::bare())
                    == grammar::properties(
                    ts,
                    self.pos as int,
                    (grammar::Properties {
                        anchor: text::optional_text(anchor),
                        tag: text::optional_text(tag),
                    }),
                ),
            decreases self.tokens.len() - self.pos,
        {
            match self.peek() {
                Some(TokenKind::Anchor(name)) => {
                    if anchor.is_some() {
                        return Err(self.error("a node may have at most one anchor"));
                    }
                    anchor = Some(name.clone());
                    self.bump();
                },
                Some(TokenKind::Tag(name)) => {
                    if tag.is_some() {
                        return Err(self.error("a node may have at most one tag"));
                    }
                    tag = Some(name.clone());
                    self.bump();
                },
                _ => {
                    return Ok((anchor, tag));
                },
            }
        }
    }

    /// Parses a node that nests no deeper than it may.
    fn parse_node_inner(&mut self) -> (res: Result<(), Error>)
        requires
            old(self).wf(),
            old(self).room() > 0 || !grammar::is_collection(old(self).ts(), old(self).pos as int),
        ensures
            final(self).did(
                old(self),
                res,
                grammar::node(old(self).ts(), old(self).pos as int, old(self).room()),
            ),
        decreases old(self).room(), 0int,
    {
        proof {
            grammar::lemma_past_properties(self.ts(), self.pos as int, grammar::bare());
        }
        let (anchor, tag) = match self.parse_properties() {
            Ok(found) => found,
            Err(e) => {
                assert(self.evs() == old(self).evs() + Seq::<event::Ev>::empty());
                return Err(e);
            },
        };
        let span = self.span();
        let ghost ts = self.ts();
        let ghost had = self.evs();
        match self.peek() {
            Some(TokenKind::Scalar { value, style }) => {
                let kind = EventKind::Scalar { value: value.clone(), style: *style, anchor, tag };
                self.bump();
                self.emit(kind, span);
                Ok(())
            },
            Some(TokenKind::Alias(name)) => {
                if anchor.is_some() || tag.is_some() {
                    assert(self.evs() == old(self).evs() + Seq::<event::Ev>::empty());
                    return Err(self.error("an alias node cannot have an anchor or tag"));
                }
                let kind = EventKind::Alias(name.clone());
                self.bump();
                self.emit(kind, span);
                Ok(())
            },
            Some(TokenKind::BlockSequenceStart)
            | Some(TokenKind::BlockMappingStart)
            | Some(TokenKind::BlockEntry)
            | Some(TokenKind::FlowSequenceStart)
            | Some(TokenKind::FlowMappingStart) => {
                self.depth = self.depth + 1;
                let result = self.parse_collection(anchor, tag);
                self.depth = self.depth - 1;
                result
            },
            _ => {
                self.emit(
                    EventKind::Scalar {
                        value: String::new(),
                        style: ScalarStyle::Plain,
                        anchor,
                        tag,
                    },
                    span,
                );
                assert(self.evs() == had + grammar::empty_node(
                    ts,
                    self.pos as int,
                    (grammar::Properties {
                        anchor: text::optional_text(anchor),
                        tag: text::optional_text(tag),
                    }),
                ));
                Ok(())
            },
        }
    }

    /// Parses the collection at the current token, whose properties are given.
    fn parse_collection(&mut self, anchor: Option<String>, tag: Option<String>) -> (res: Result<
        (),
        Error,
    >)
        requires
            old(self).wf(),
            grammar::starts_collection(
                grammar::kind_at(old(self).ts(), old(self).pos as int),
            ),
        ensures
            final(self).did(
                old(self),
                res,
                grammar::collection(
                    old(self).ts(),
                    old(self).pos as int,
                    (grammar::Properties {
                        anchor: text::optional_text(anchor),
                        tag: text::optional_text(tag),
                    }),
                    old(self).room(),
                ),
            ),
        decreases old(self).room(), 6int,
    {
        let span = self.span();
        let ghost ts = self.ts();
        let ghost room = self.room();
        let ghost had = self.evs();
        let ghost at = self.pos as int;
        let ghost sequence = grammar::ev(
            ts,
            Happening::SequenceStart {
                anchor: text::optional_text(anchor),
                tag: text::optional_text(tag),
            },
            at,
        );
        let ghost mapping = grammar::ev(
            ts,
            Happening::MappingStart {
                anchor: text::optional_text(anchor),
                tag: text::optional_text(tag),
            },
            at,
        );
        match self.peek() {
            Some(TokenKind::BlockSequenceStart) => {
                self.emit(EventKind::SequenceStart { anchor, tag }, span);
                self.bump();
                proof {
                    assert(self.evs() == had + sequence);
                    grammar::lemma_joined(had, sequence, grammar::block_entries(ts, at + 1, room));
                }
                self.parse_block_entries()
            },
            Some(TokenKind::BlockMappingStart) => {
                self.emit(EventKind::MappingStart { anchor, tag }, span);
                self.bump();
                proof {
                    assert(self.evs() == had + mapping);
                    grammar::lemma_joined(had, mapping, grammar::block_pairs(ts, at + 1, room));
                }
                self.parse_block_pairs()
            },
            Some(TokenKind::FlowSequenceStart) => {
                self.emit(EventKind::SequenceStart { anchor, tag }, span);
                self.bump();
                proof {
                    assert(self.evs() == had + sequence);
                    grammar::lemma_joined(had, sequence, grammar::flow_entries(ts, at + 1, room));
                }
                self.parse_flow_entries()
            },
            Some(TokenKind::FlowMappingStart) => {
                self.emit(EventKind::MappingStart { anchor, tag }, span);
                self.bump();
                proof {
                    assert(self.evs() == had + mapping);
                    grammar::lemma_joined(had, mapping, grammar::flow_pairs(ts, at + 1, room));
                }
                self.parse_flow_pairs()
            },
            _ => {
                self.emit(EventKind::SequenceStart { anchor, tag }, span);
                proof {
                    assert(self.evs() == had + sequence);
                    grammar::lemma_joined(had, sequence, grammar::indentless_entries(ts, at, room));
                }
                self.parse_indentless_entries()
            },
        }
    }

    /// Two parses of a node, one with its anchor before its tag and one with its tag
    /// before its anchor, end alike: with the same events at the same place, or with the
    /// same fault.
    proof fn law_either_order_of_properties(
        before: ParserState,
        other: ParserState,
        after: ParserState,
        res: Result<(), Error>,
        other_after: ParserState,
        other_res: Result<(), Error>,
    )
        requires
            grammar::kind_at(before.ts(), before.pos as int) matches Some(kind) && kind is Anchor,
            grammar::kind_at(before.ts(), before.pos + 1) matches Some(kind) && kind is Tag,
            other.ts() == swap::swapped(before.ts(), before.pos as int),
            other.pos == before.pos,
            other.room() == before.room(),
            other.evs() == before.evs(),
            after.did(
                &before,
                res,
                grammar::node(before.ts(), before.pos as int, before.room()),
            ),
            other_after.did(
                &other,
                other_res,
                grammar::node(other.ts(), other.pos as int, other.room()),
            ),
        ensures
            res is Ok <==> other_res is Ok,
            res matches Err(e) ==> (other_res matches Err(f) && e@ == f@),
            after.pos == other_after.pos,
            after.evs() == other_after.evs(),
    {
        swap::law_properties_come_in_either_order(
            before.ts(),
            before.pos as int,
            before.room(),
        );
    }

    /// Parses a node, or emits an empty one where none is there.
    fn parse_node_unless(&mut self, empty: bool) -> (res: Result<(), Error>)
        requires
            old(self).wf(),
        ensures
            final(self).did(
                old(self),
                res,
                grammar::node_unless(
                    old(self).ts(),
                    old(self).pos as int,
                    old(self).room(),
                    empty,
                ),
            ),
        decreases old(self).room(), 2int,
    {
        if empty {
            self.emit_empty_scalar();
            Ok(())
        } else {
            self.parse_node()
        }
    }

    /// Parses the entries of a block sequence up to its end.
    fn parse_block_entries(&mut self) -> (res: Result<(), Error>)
        requires
            old(self).wf(),
        ensures
            final(self).did(
                old(self),
                res,
                grammar::block_entries(old(self).ts(), old(self).pos as int, old(self).room()),
            ),
        decreases old(self).room(), 5int,
    {
        let ghost ts = self.ts();
        let ghost room = self.room();
        loop
            invariant
                self.wf(),
                self.tokens == old(self).tokens,
                self.depth == old(self).depth,
                self.max_depth == old(self).max_depth,
                old(self).pos <= self.pos,
                ts == old(self).ts(),
                room == old(self).room(),
                grammar::joined(
                    self.evs(),
                    grammar::block_entries(ts, self.pos as int, room),
                ) == grammar::joined(
                    old(self).evs(),
                    grammar::block_entries(ts, old(self).pos as int, room),
                ),
            decreases self.tokens.len() - self.pos,
        {
            let ghost had = self.evs();
            let ghost at = self.pos as int;
            match self.peek() {
                Some(TokenKind::BlockEntry) => {
                    self.bump();
                    let empty = matches!(
                        self.peek(),
                        Some(TokenKind::BlockEntry) | Some(TokenKind::BlockEnd)
                    );
                    match self.parse_node_unless(empty) {
                        Err(e) => {
                            return Err(e);
                        },
                        Ok(()) => {
                            proof {
                                let entry = grammar::node_unless(ts, at + 1, room, empty)->Ok_0.0;
                                grammar::lemma_joined(
                                    had,
                                    entry,
                                    grammar::block_entries(ts, self.pos as int, room),
                                );
                            }
                        },
                    }
                },
                Some(TokenKind::BlockEnd) => {
                    let span = self.span();
                    self.bump();
                    self.emit(EventKind::SequenceEnd, span);
                    return Ok(());
                },
                _ => {
                    assert(self.evs() == had + Seq::<event::Ev>::empty());
                    return Err(self.error("expected a block sequence entry or end"));
                },
            }
        }
    }

    /// Parses the entries of a sequence that has no indentation of its own.
    fn parse_indentless_entries(&mut self) -> (res: Result<(), Error>)
        requires
            old(self).wf(),
        ensures
            final(self).did(
                old(self),
                res,
                grammar::indentless_entries(old(self).ts(), old(self).pos as int, old(self).room()),
            ),
        decreases old(self).room(), 5int,
    {
        let ghost ts = self.ts();
        let ghost room = self.room();
        loop
            invariant
                self.wf(),
                self.tokens == old(self).tokens,
                self.depth == old(self).depth,
                self.max_depth == old(self).max_depth,
                old(self).pos <= self.pos,
                ts == old(self).ts(),
                room == old(self).room(),
                grammar::joined(
                    self.evs(),
                    grammar::indentless_entries(ts, self.pos as int, room),
                ) == grammar::joined(
                    old(self).evs(),
                    grammar::indentless_entries(ts, old(self).pos as int, room),
                ),
            decreases self.tokens.len() - self.pos,
        {
            let ghost had = self.evs();
            let ghost at = self.pos as int;
            match self.peek() {
                Some(TokenKind::BlockEntry) => {
                    self.bump();
                    let empty = matches!(
                        self.peek(),
                        Some(TokenKind::BlockEntry)
                            | Some(TokenKind::Key)
                            | Some(TokenKind::Value)
                            | Some(TokenKind::BlockEnd)
                    );
                    match self.parse_node_unless(empty) {
                        Err(e) => {
                            return Err(e);
                        },
                        Ok(()) => {
                            proof {
                                let entry = grammar::node_unless(ts, at + 1, room, empty)->Ok_0.0;
                                grammar::lemma_joined(
                                    had,
                                    entry,
                                    grammar::indentless_entries(ts, self.pos as int, room),
                                );
                            }
                        },
                    }
                },
                _ => {
                    let span = self.span();
                    self.emit(EventKind::SequenceEnd, span);
                    return Ok(());
                },
            }
        }
    }

    /// Parses the value of a block mapping entry.
    fn parse_block_value(&mut self) -> (res: Result<(), Error>)
        requires
            old(self).wf(),
        ensures
            final(self).did(
                old(self),
                res,
                grammar::block_value(old(self).ts(), old(self).pos as int, old(self).room()),
            ),
        decreases old(self).room(), 3int,
    {
        if matches!(self.peek(), Some(TokenKind::Value)) {
            self.bump();
            let empty = matches!(self.peek(), Some(TokenKind::Key) | Some(TokenKind::BlockEnd));
            self.parse_node_unless(empty)
        } else {
            self.emit_empty_scalar();
            Ok(())
        }
    }

    /// Parses the entries of a block mapping up to its end.
    fn parse_block_pairs(&mut self) -> (res: Result<(), Error>)
        requires
            old(self).wf(),
        ensures
            final(self).did(
                old(self),
                res,
                grammar::block_pairs(old(self).ts(), old(self).pos as int, old(self).room()),
            ),
        decreases old(self).room(), 5int,
    {
        let ghost ts = self.ts();
        let ghost room = self.room();
        loop
            invariant
                self.wf(),
                self.tokens == old(self).tokens,
                self.depth == old(self).depth,
                self.max_depth == old(self).max_depth,
                old(self).pos <= self.pos,
                ts == old(self).ts(),
                room == old(self).room(),
                grammar::joined(
                    self.evs(),
                    grammar::block_pairs(ts, self.pos as int, room),
                ) == grammar::joined(
                    old(self).evs(),
                    grammar::block_pairs(ts, old(self).pos as int, room),
                ),
            decreases self.tokens.len() - self.pos,
        {
            let ghost had = self.evs();
            let ghost at = self.pos as int;
            match self.peek() {
                Some(TokenKind::Key) => {
                    self.bump();
                    let empty = matches!(
                        self.peek(),
                        Some(TokenKind::Value) | Some(TokenKind::Key) | Some(TokenKind::BlockEnd)
                    );
                    match self.parse_node_unless(empty) {
                        Err(e) => {
                            return Err(e);
                        },
                        Ok(()) => {},
                    }
                    let ghost middle = self.pos as int;
                    match self.parse_block_value() {
                        Err(e) => {
                            proof {
                                let key = grammar::node_unless(ts, at + 1, room, empty)->Ok_0.0;
                                let h = grammar::block_value(ts, middle, room)->Err_0;
                                assert(self.evs() == had + (key + h.evs));
                            }
                            return Err(e);
                        },
                        Ok(()) => {
                            proof {
                                let key = grammar::node_unless(ts, at + 1, room, empty)->Ok_0.0;
                                let value = grammar::block_value(ts, middle, room)->Ok_0.0;
                                assert(self.evs() == had + (key + value));
                                grammar::lemma_joined(
                                    had,
                                    key + value,
                                    grammar::block_pairs(ts, self.pos as int, room),
                                );
                            }
                        },
                    }
                },
                Some(TokenKind::BlockEnd) => {
                    let span = self.span();
                    self.bump();
                    self.emit(EventKind::MappingEnd, span);
                    return Ok(());
                },
                _ => {
                    assert(self.evs() == had + Seq::<event::Ev>::empty());
                    return Err(self.error("expected a block mapping key or end"));
                },
            }
        }
    }

    /// True when the current token terminates a flow value (separator or close).
    fn at_flow_value_end(&self) -> (b: bool)
        requires
            self.wf(),
        ensures
            b == grammar::flow_value_ends(self.ts(), self.pos as int),
    {
        matches!(
            self.peek(),
            None
                | Some(TokenKind::FlowEntry)
                | Some(TokenKind::FlowSequenceEnd)
                | Some(TokenKind::FlowMappingEnd)
        )
    }

    /// Parses the value of a flow single-pair mapping, whose `:` is the current
    /// token, and ends the mapping.
    fn parse_flow_pair_value(&mut self) -> (res: Result<(), Error>)
        requires
            old(self).wf(),
            old(self).pos < old(self).tokens.len(),
        ensures
            final(self).did(
                old(self),
                res,
                grammar::flow_pair_value(old(self).ts(), old(self).pos as int, old(self).room()),
            ),
        decreases old(self).room(), 3int,
    {
        self.bump();
        let empty = self.at_flow_value_end();
        match self.parse_node_unless(empty) {
            Err(e) => Err(e),
            Ok(()) => {
                let span = self.span();
                self.emit(EventKind::MappingEnd, span);
                assert(self.evs() == old(self).evs() + grammar::flow_pair_value(
                    old(self).ts(),
                    old(self).pos as int,
                    old(self).room(),
                )->Ok_0.0);
                Ok(())
            },
        }
    }

    /// How deep the collections of the events from `mark` on nest.
    fn height_from(&self, mark: usize) -> (h: usize)
        requires
            mark <= self.events.len(),
        ensures
            h == grammar::height(self.evs().skip(mark as int), self.events.len() - mark),
    {
        let ghost part = self.evs().skip(mark as int);
        let mut level: i128 = 0;
        let mut h: usize = 0;
        let mut i: usize = mark;
        while i < self.events.len()
            invariant
                mark <= i <= self.events.len(),
                part == self.evs().skip(mark as int),
                level == grammar::level(part, i - mark),
                h == grammar::height(part, i - mark),
                h <= i - mark,
                mark - i <= level <= i - mark,
            decreases self.events.len() - i,
        {
            match &self.events[i].kind {
                EventKind::SequenceStart { .. } | EventKind::MappingStart { .. } => {
                    level = level + 1;
                },
                EventKind::SequenceEnd | EventKind::MappingEnd => {
                    level = level - 1;
                },
                _ => {},
            }
            assert(part[i - mark] == self.events@[i as int]@);
            if level > h as i128 {
                h = level as usize;
            }
            i = i + 1;
        }
        h
    }

    /// Parses one flow sequence entry: either a node, or a single key/value pair
    /// that makes a mapping of its own, one level deeper.
    fn parse_flow_sequence_entry(&mut self) -> (res: Result<(), Error>)
        requires
            old(self).wf(),
        ensures
            final(self).did(
                old(self),
                res,
                grammar::flow_entry(old(self).ts(), old(self).pos as int, old(self).room()),
            ),
        decreases old(self).room(), 4int,
    {
        let ghost ts = self.ts();
        let ghost room = self.room();
        let ghost had = self.evs();
        let ghost at = self.pos as int;
        let mark: usize = self.events.len();
        let span = self.span();
        let mapping = EventKind::MappingStart { anchor: None, tag: None };
        let ghost opening = grammar::ev(ts, mapping@, at);
        if matches!(self.peek(), Some(TokenKind::Value)) {
            if self.depth >= self.max_depth {
                assert(self.evs() == had + Seq::<event::Ev>::empty());
                return Err(self.depth_error());
            }
            self.emit(mapping, span);
            self.emit_empty_scalar();
            proof {
                let front = opening + grammar::empty_node(ts, at, grammar::bare());
                assert(self.evs() == had + front);
                grammar::lemma_joined(
                    had,
                    front,
                    grammar::flow_pair_value(ts, at, (room - 1) as nat),
                );
            }
            self.depth = self.depth + 1;
            let result = self.parse_flow_pair_value();
            self.depth = self.depth - 1;
            return result;
        }
        match self.parse_node() {
            Err(e) => {
                return Err(e);
            },
            Ok(()) => {},
        }
        if matches!(self.peek(), Some(TokenKind::Value)) {
            let ghost entry = grammar::node(ts, at, room)->Ok_0.0;
            let ghost before = self.evs();
            assert(before.len() == had.len() + entry.len());
            assert(before.skip(mark as int) == entry);
            if self.height_from(mark) >= self.max_depth - self.depth {
                assert(self.evs() == had + (entry + Seq::<event::Ev>::empty()));
                return Err(self.depth_error());
            }
            self.events.insert(mark, Event::new(mapping, span));
            proof {
                assert(self.evs() == before.insert(mark as int, opening[0]));
                assert(self.evs() == had + (opening + entry));
                grammar::lemma_height(entry, entry.len() as int);
                grammar::lemma_joined(
                    had,
                    opening + entry,
                    grammar::flow_pair_value(ts, self.pos as int, (room - 1) as nat),
                );
            }
            self.depth = self.depth + 1;
            let result = self.parse_flow_pair_value();
            self.depth = self.depth - 1;
            return result;
        }
        Ok(())
    }

    /// Parses the entries of a flow sequence up to its `]`.
    fn parse_flow_entries(&mut self) -> (res: Result<(), Error>)
        requires
            old(self).wf(),
        ensures
            final(self).did(
                old(self),
                res,
                grammar::flow_entries(old(self).ts(), old(self).pos as int, old(self).room()),
            ),
        decreases old(self).room(), 5int,
    {
        let ghost ts = self.ts();
        let ghost room = self.room();
        loop
            invariant
                self.wf(),
                self.tokens == old(self).tokens,
                self.depth == old(self).depth,
                self.max_depth == old(self).max_depth,
                old(self).pos <= self.pos,
                ts == old(self).ts(),
                room == old(self).room(),
                grammar::joined(
                    self.evs(),
                    grammar::flow_entries(ts, self.pos as int, room),
                ) == grammar::joined(
                    old(self).evs(),
                    grammar::flow_entries(ts, old(self).pos as int, room),
                ),
            decreases self.tokens.len() - self.pos,
        {
            let ghost had = self.evs();
            let ghost at = self.pos as int;
            match self.peek() {
                Some(TokenKind::FlowSequenceEnd) => {
                    let span = self.span();
                    self.bump();
                    self.emit(EventKind::SequenceEnd, span);
                    return Ok(());
                },
                Some(TokenKind::FlowEntry) => {
                    assert(self.evs() == had + Seq::<event::Ev>::empty());
                    return Err(self.error("unexpected ',' in flow sequence"));
                },
                _ => {},
            }
            match self.parse_flow_sequence_entry() {
                Err(e) => {
                    return Err(e);
                },
                Ok(()) => {},
            }
            let ghost entry = grammar::flow_entry(ts, at, room)->Ok_0.0;
            match self.peek() {
                Some(TokenKind::FlowEntry) => {
                    self.bump();
                    proof {
                        grammar::lemma_joined(
                            had,
                            entry,
                            grammar::flow_entries(ts, self.pos as int, room),
                        );
                    }
                },
                Some(TokenKind::FlowSequenceEnd) => {
                    let span = self.span();
                    proof {
                        let end = grammar::ev(ts, Happening::SequenceEnd, self.pos as int);
                        assert(had + entry + end == had + (entry + end));
                    }
                    self.bump();
                    self.emit(EventKind::SequenceEnd, span);
                    return Ok(());
                },
                _ => {
                    assert(self.evs() == had + (entry + Seq::<event::Ev>::empty()));
                    return Err(self.error("expected ',' or ']' in flow sequence"));
                },
            }
        }
    }

    /// Parses the key of a flow mapping entry.
    fn parse_flow_key(&mut self) -> (res: Result<(), Error>)
        requires
            old(self).wf(),
        ensures
            final(self).did(
                old(self),
                res,
                grammar::flow_key(old(self).ts(), old(self).pos as int, old(self).room()),
            ),
        decreases old(self).room(), 3int,
    {
        match self.peek() {
            Some(TokenKind::Key) => {
                self.bump();
                let empty = matches!(self.peek(), Some(TokenKind::Value)) || self.at_flow_value_end();
                self.parse_node_unless(empty)
            },
            Some(TokenKind::Value) => {
                self.emit_empty_scalar();
                Ok(())
            },
            _ => self.parse_node(),
        }
    }

    /// Parses the value of a flow mapping entry.
    fn parse_flow_value(&mut self) -> (res: Result<(), Error>)
        requires
            old(self).wf(),
        ensures
            final(self).did(
                old(self),
                res,
                grammar::flow_value(old(self).ts(), old(self).pos as int, old(self).room()),
            ),
        decreases old(self).room(), 3int,
    {
        if matches!(self.peek(), Some(TokenKind::Value)) {
            self.bump();
            let empty = self.at_flow_value_end();
            self.parse_node_unless(empty)
        } else {
            self.emit_empty_scalar();
            Ok(())
        }
    }

    /// Parses one flow mapping entry: a key node followed by a value node.
    fn parse_flow_mapping_entry(&mut self) -> (res: Result<(), Error>)
        requires
            old(self).wf(),
        ensures
            final(self).did(
                old(self),
                res,
                grammar::flow_pair(old(self).ts(), old(self).pos as int, old(self).room()),
            ),
        decreases old(self).room(), 4int,
    {
        match self.parse_flow_key() {
            Err(e) => Err(e),
            Ok(()) => {
                proof {
                    let ts = old(self).ts();
                    let room = old(self).room();
                    let key = grammar::flow_key(ts, old(self).pos as int, room)->Ok_0.0;
                    grammar::lemma_joined(
                        old(self).evs(),
                        key,
                        grammar::flow_value(ts, self.pos as int, room),
                    );
                }
                self.parse_flow_value()
            },
        }
    }

    /// Parses the entries of a flow mapping up to its `}`.
    fn parse_flow_pairs(&mut self) -> (res: Result<(), Error>)
        requires
            old(self).wf(),
        ensures
            final(self).did(
                old(self),
                res,
                grammar::flow_pairs(old(self).ts(), old(self).pos as int, old(self).room()),
            ),
        decreases old(self).room(), 5int,
    {
        let ghost ts = self.ts();
        let ghost room = self.room();
        loop
            invariant
                self.wf(),
                self.tokens == old(self).tokens,
                self.depth == old(self).depth,
                self.max_depth == old(self).max_depth,
                old(self).pos <= self.pos,
                ts == old(self).ts(),
                room == old(self).room(),
                grammar::joined(
                    self.evs(),
                    grammar::flow_pairs(ts, self.pos as int, room),
                ) == grammar::joined(
                    old(self).evs(),
                    grammar::flow_pairs(ts, old(self).pos as int, room),
                ),
            decreases self.tokens.len() - self.pos,
        {
            let ghost had = self.evs();
            let ghost at = self.pos as int;
            match self.peek() {
                Some(TokenKind::FlowMappingEnd) => {
                    let span = self.span();
                    self.bump();
                    self.emit(EventKind::MappingEnd, span);
                    return Ok(());
                },
                Some(TokenKind::FlowEntry) => {
                    assert(self.evs() == had + Seq::<event::Ev>::empty());
                    return Err(self.error("unexpected ',' in flow mapping"));
                },
                _ => {},
            }
            match self.parse_flow_mapping_entry() {
                Err(e) => {
                    return Err(e);
                },
                Ok(()) => {},
            }
            let ghost entry = grammar::flow_pair(ts, at, room)->Ok_0.0;
            match self.peek() {
                Some(TokenKind::FlowEntry) => {
                    self.bump();
                    proof {
                        grammar::lemma_joined(
                            had,
                            entry,
                            grammar::flow_pairs(ts, self.pos as int, room),
                        );
                    }
                },
                Some(TokenKind::FlowMappingEnd) => {
                    let span = self.span();
                    proof {
                        let end = grammar::ev(ts, Happening::MappingEnd, self.pos as int);
                        assert(had + entry + end == had + (entry + end));
                    }
                    self.bump();
                    self.emit(EventKind::MappingEnd, span);
                    return Ok(());
                },
                _ => {
                    assert(self.evs() == had + (entry + Seq::<event::Ev>::empty()));
                    return Err(self.error("expected ',' or '}' in flow mapping"));
                },
            }
        }
    }

    /// Parses a document's root node, or an empty node for an empty document.
    fn parse_document_content(&mut self) -> (res: Result<(), Error>)
        requires
            old(self).wf(),
        ensures
            final(self).did(
                old(self),
                res,
                grammar::root(old(self).ts(), old(self).pos as int, old(self).room()),
            ),
    {
        let empty = matches!(
            self.peek(),
            None
                | Some(TokenKind::StreamEnd)
                | Some(TokenKind::DocumentStart)
                | Some(TokenKind::DocumentEnd)
        );
        self.parse_node_unless(empty)
    }

    /// Parses one document.
    fn parse_document(&mut self) -> (res: Result<(), Error>)
        requires
            old(self).wf(),
        ensures
            final(self).did(
                old(self),
                res,
                grammar::document(old(self).ts(), old(self).pos as int, old(self).room()),
            ),
    {
        let ghost ts = self.ts();
        let ghost room = self.room();
        let ghost had = self.evs();
        let before: usize = self.pos;
        let span = self.span();
        if matches!(self.peek(), Some(TokenKind::DocumentStart)) {
            self.bump();
        }
        self.emit(EventKind::DocumentStart, span);
        let ghost from = self.pos as int;
        match self.parse_document_content() {
            Err(e) => {
                proof {
                    let begin = grammar::ev(ts, Happening::DocumentStart, before as int);
                    let h = grammar::root(ts, from, room)->Err_0;
                    assert(self.evs() == had + (begin + h.evs));
                }
                Err(e)
            },
            Ok(()) => {
                let ghost content = grammar::root(ts, from, room)->Ok_0.0;
                let span = self.span();
                let ghost end = grammar::ev(ts, Happening::DocumentEnd, self.pos as int);
                if matches!(self.peek(), Some(TokenKind::DocumentEnd)) {
                    self.bump();
                }
                self.emit(EventKind::DocumentEnd, span);
                proof {
                    let begin = grammar::ev(ts, Happening::DocumentStart, before as int);
                    let all = begin + content + end;
                    assert(self.evs() == had + all);
                    assert(self.evs() == had + (all + Seq::<event::Ev>::empty()));
                }
                if self.pos == before {
                    return Err(self.error("unexpected token at document level"));
                }
                Ok(())
            },
        }
    }

    fn parse_stream(&mut self) -> (res: Result<(), Error>)
        requires
            old(self).wf(),
            old(self).pos == 0,
            old(self).depth == 0,
            old(self).events@.len() == 0,
        ensures
            final(self).did(
                old(self),
                res,
                grammar::whole(old(self).ts(), old(self).max_depth as nat),
            ),
            res is Ok && grammar::is_framed(old(self).ts()) ==> final(self).pos
                == final(self).tokens.len(),
    {
        let ghost ts = self.ts();
        let ghost room = self.room();
        match self.peek() {
            Some(TokenKind::StreamStart) => {},
            _ => {
                assert(self.evs() == old(self).evs() + Seq::<event::Ev>::empty());
                return Err(self.error("expected stream start"));
            },
        }
        let span = self.span();
        self.bump();
        self.emit(EventKind::StreamStart, span);
        let ghost opening = grammar::ev(ts, Happening::StreamStart, 0);
        proof {
            grammar::lemma_joined(old(self).evs(), opening, grammar::documents(ts, 1, room));
            if grammar::is_framed(ts) {
                shape::law_whole_stream_is_read(ts, room);
            }
        }
        loop
            invariant
                self.wf(),
                self.tokens == old(self).tokens,
                self.depth == 0,
                self.max_depth == old(self).max_depth,
                ts == old(self).ts(),
                room == old(self).max_depth,
                old(self).pos == 0,
                old(self).depth == 0,
                grammar::joined(
                    self.evs(),
                    grammar::documents(ts, self.pos as int, room),
                ) == grammar::joined(old(self).evs(), grammar::whole(ts, room)),
                grammar::is_framed(ts) ==> (grammar::whole(ts, room) matches Ok((_, at)) ==> at
                    == ts.len()),
            decreases self.tokens.len() - self.pos,
        {
            let ghost had = self.evs();
            let ghost at = self.pos as int;
            let span = self.span();
            match self.peek() {
                None => {
                    self.emit(EventKind::StreamEnd, span);
                    return Ok(());
                },
                Some(TokenKind::StreamEnd) => {
                    self.bump();
                    self.emit(EventKind::StreamEnd, span);
                    return Ok(());
                },
                Some(TokenKind::DocumentEnd) => {
                    self.bump();
                },
                _ => match self.parse_document() {
                    Err(e) => {
                        return Err(e);
                    },
                    Ok(()) => {
                        proof {
                            let events = grammar::document(ts, at, room)->Ok_0.0;
                            grammar::lemma_joined(
                                had,
                                events,
                                grammar::documents(ts, self.pos as int, room),
                            );
                        }
                    },
                },
            }
        }
    }
}

} // verus!
