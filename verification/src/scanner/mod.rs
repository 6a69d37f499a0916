//! The scanner: turns source text into a flat token stream.

pub mod alike;
pub mod block_scalar;
pub mod endings;
pub mod flow;
pub mod gap;
pub mod laws;
pub mod lex;
pub mod model;
pub mod order;
pub mod plain;
pub mod properties;
pub mod pull;
pub mod quoted;
pub mod reader;
pub mod token;

use crate::error::{Error, ErrorKind, Position, Span};
use crate::meta::ScalarStyle;
use crate::options::Limits;
use crate::scanner::block_scalar::scan_block_scalar;
use crate::scanner::gap::{skip_gap, Pause};
use crate::scanner::lex::{
    advance_by, indent_of, leading_spaces, marker_ahead, scan_error, separator_ahead,
    terminator_next, value_indicator,
};
use crate::scanner::model::{KeyMark, ScanState};
use crate::scanner::plain::scan_plain;
use crate::scanner::properties::{scan_anchor_or_alias, scan_directive, scan_tag, TagHandles};
use crate::scanner::quoted::{scan_double_quoted, scan_single_quoted};
use crate::scanner::reader::Reader;
use crate::scanner::token::{Tok, Token, TokenKind};
use crate::text;
use crate::text::flow_char;
use std::collections::VecDeque;
use vstd::prelude::*;

verus! {

/// A buffered node that becomes a block mapping key if a `:` follows on its line.
#[derive(Clone, Copy)]
struct SimpleKey {
    /// Index of its first token in the queue. No token leaves the queue while
    /// a key is buffered.
    index: usize,
    /// Where it begins.
    mark: Position,
    at: Ghost<int>,
}

/// A streaming scanner over an input.
pub struct Scanner {
    reader: Reader,
    limits: Limits,
    /// Produced tokens not yet handed out.
    tokens: VecDeque<Token>,
    /// Tokens handed out.
    emitted: Ghost<Seq<Tok>>,
    started: bool,
    stream_end_produced: bool,
    flow_depth: usize,
    indent: i128,
    indents: Vec<i128>,
    simple_key_allowed: bool,
    simple_key: Option<SimpleKey>,
    tag_handles: TagHandles,
    next_doc_needs_reset: bool,
    at_line_start: bool,
    tab_in_indent: bool,
    doc_open: bool,
    pending_directives: bool,
    yaml_directive_seen: bool,
}

impl View for Scanner {
    type V = ScanState;

    closed spec fn view(&self) -> ScanState {
        ScanState {
            pos: self.reader.at(),
            out: self.emitted@ + token::toks(self.tokens@),
            started: self.started,
            ended: self.stream_end_produced,
            flow_depth: self.flow_depth as nat,
            indent: self.indent as int,
            indents: Seq::new(self.indents@.len(), |i: int| self.indents@[i] as int),
            key_allowed: self.simple_key_allowed,
            key: match self.simple_key {
                Some(k) => Some(KeyMark { number: self.emitted@.len() + k.index, at: k.at@ }),
                None => None,
            },
            handles: self.tag_handles@,
            needs_reset: self.next_doc_needs_reset,
            at_line_start: self.at_line_start,
            tab_in_indent: self.tab_in_indent,
            doc_open: self.doc_open,
            pending_directives: self.pending_directives,
            yaml_seen: self.yaml_directive_seen,
        }
    }
}

/// A column, or -1.
spec fn is_indent(n: int) -> bool {
    -1 <= n <= usize::MAX
}

impl Scanner {
    /// The whole input.
    pub closed spec fn text(&self) -> Seq<char> {
        self.reader.text()
    }

    pub closed spec fn limits(&self) -> Limits {
        self.limits
    }

    /// The tokens handed out so far.
    pub closed spec fn emitted(&self) -> Seq<Tok> {
        self.emitted@
    }

    /// The counters are in range and a buffered key lies in the queue.
    pub closed spec fn wf(&self) -> bool {
        &&& self.reader.wf()
        &&& self.flow_depth <= self.reader.at()
        &&& is_indent(self.indent as int)
        &&& forall|i: int|
            0 <= i < self.indents@.len() ==> is_indent(#[trigger] self.indents@[i] as int)
        &&& self.simple_key matches Some(k) ==> {
            &&& k.index <= self.tokens.len()
            &&& k.mark == reader::position_at(self.reader.text(), k.at@)
        }
        &&& self.stream_end_produced ==> self.simple_key is None
    }

    /// Input, limits and handed-out tokens are those of `other`.
    pub closed spec fn same_source(&self, other: &Scanner) -> bool {
        &&& self.text() == other.text()
        &&& self.limits == other.limits
        &&& self.emitted == other.emitted
    }

    pub fn new(input: &str, limits: Limits) -> (s: Self)
        ensures
            s.wf(),
            s.text() == input@,
            s.limits() == limits,
            s.emitted() == Seq::<Tok>::empty(),
            s@ == model::initial_state(),
    {
        let s = Self {
            reader: Reader::new(input),
            limits,
            tokens: VecDeque::new(),
            emitted: Ghost(Seq::empty()),
            started: false,
            stream_end_produced: false,
            flow_depth: 0,
            indent: -1,
            indents: Vec::new(),
            simple_key_allowed: true,
            simple_key: None,
            tag_handles: TagHandles::new(),
            next_doc_needs_reset: true,
            at_line_start: true,
            tab_in_indent: false,
            doc_open: false,
            pending_directives: false,
            yaml_directive_seen: false,
        };
        assert(s@ == model::initial_state());
        s
    }

    /// Adds a token to the queue.
    fn push_token(&mut self, t: Token)
        requires
            old(self).wf(),
        ensures
            final(self).wf(),
            final(self).same_source(old(self)),
            final(self)@ == (ScanState { out: old(self)@.out.push(t@), ..old(self)@ }),
    {
        self.tokens.push_back(t);
        assert(self@.out == old(self)@.out.push(t@));
        assert(self@ == (ScanState { out: old(self)@.out.push(t@), ..old(self)@ }));
    }

    /// Puts a token into the queue at `index`.
    fn insert_token(&mut self, index: usize, t: Token)
        requires
            old(self).wf(),
            old(self).simple_key is None,
            index <= old(self).tokens@.len(),
        ensures
            final(self).wf(),
            final(self).same_source(old(self)),
            final(self).tokens@.len() == old(self).tokens@.len() + 1,
            final(self).simple_key is None,
            final(self)@ == (ScanState {
                out: old(self)@.out.insert(old(self).emitted@.len() + index, t@),
                ..old(self)@
            }),
    {
        self.tokens.insert(index, t);
        assert(self@.out == old(self)@.out.insert(old(self).emitted@.len() + index, t@));
        assert(self@ == (ScanState {
            out: old(self)@.out.insert(old(self).emitted@.len() + index, t@),
            ..old(self)@
        }));
    }

    /// Closes block levels deeper than `col`.
    fn unroll_indent(&mut self, col: i128)
        requires
            old(self).wf(),
            col >= -1,
        ensures
            final(self).wf(),
            final(self).same_source(old(self)),
            final(self)@ == model::unrolled(old(self).text(), old(self)@, col as int),
    {
        if self.flow_depth > 0 {
            return;
        }
        while self.indent > col
            invariant
                self.wf(),
                self.same_source(old(self)),
                self.flow_depth == 0,
                col >= -1,
                model::unrolled(self.text(), self@, col as int) == model::unrolled(
                    old(self).text(),
                    old(self)@,
                    col as int,
                ),
            decreases self.indents@.len() + if self.indent > -1 { 1int } else { 0 },
        {
            let ghost before = self@;
            let pos = self.reader.position();
            self.push_token(Token::new(TokenKind::BlockEnd, Span::new(pos, pos)));
            let ghost pushed = self@;
            let ghost columns = self.indents@;
            match self.indents.pop() {
                Some(n) => {
                    assert(is_indent(columns[columns.len() - 1] as int));
                    self.indent = n;
                    assert(self@.indents == before.indents.drop_last());
                },
                None => {
                    self.indent = -1;
                    assert(self@.indents == before.indents);
                },
            }
            assert(self@ == (ScanState {
                indent: self@.indent,
                indents: self@.indents,
                ..pushed
            }));
        }
    }

    /// Opens a block level at `col` if that is deeper than the current one. Its
    /// start token is up to the caller.
    fn roll_indent(&mut self, col: i128) -> (opened: bool)
        requires
            old(self).wf(),
            is_indent(col as int),
        ensures
            final(self).wf(),
            final(self).same_source(old(self)),
            final(self).simple_key == old(self).simple_key,
            final(self).tokens == old(self).tokens,
            opened == (old(self)@.flow_depth == 0 && old(self)@.indent < col),
            final(self)@ == if opened {
                ScanState {
                    indents: old(self)@.indents.push(old(self)@.indent),
                    indent: col as int,
                    ..old(self)@
                }
            } else {
                old(self)@
            },
    {
        if self.flow_depth > 0 || self.indent >= col {
            return false;
        }
        self.indents.push(self.indent);
        self.indent = col;
        assert(self@.indents == old(self)@.indents.push(old(self)@.indent));
        assert(self@ == (ScanState {
            indents: old(self)@.indents.push(old(self)@.indent),
            indent: col as int,
            ..old(self)@
        }));
        true
    }

    /// Opens a block level at the cursor's column if that is deeper than the
    /// current one, with a start token of the given kind.
    fn open_block_here(&mut self, kind: TokenKind, start: Position)
        requires
            old(self).wf(),
            start == reader::position_at(old(self).text(), old(self)@.pos),
        ensures
            final(self).wf(),
            final(self).same_source(old(self)),
            final(self)@ == model::rolled(
                old(self).text(),
                old(self)@,
                lex::indent_at(old(self).text(), old(self)@.pos),
                kind@,
                old(self)@.pos,
                old(self)@.out.len() as int,
            ),
    {
        let col: i128 = indent_of(&self.reader);
        if self.roll_indent(col) {
            let t = Token::new(kind, Span::new(start, start));
            assert(old(self)@.out.insert(old(self)@.out.len() as int, t@) == old(self)@.out.push(t@));
            self.push_token(t);
        }
    }

    /// Skips blanks, line breaks and comments up to the next token.
    #[verifier::rlimit(30)]
    #[verifier::spinoff_prover]
    fn skip_to_next_token(&mut self) -> (res: Result<(), Error>)
        requires
            old(self).wf(),
        ensures
            final(self).wf(),
            final(self).same_source(old(self)),
            match model::after_gap(old(self).text(), old(self)@) {
                Ok(st) => res is Ok && final(self)@ == st,
                Err(f) => {
                    &&& res matches Err(e) && e@ == f.fault
                    &&& final(self)@ == old(self)@
                },
            },
    {
        let before = Pause {
            separated: self.reader.position().column == 1,
            key_allowed: self.simple_key_allowed,
            at_line_start: self.at_line_start,
            tab_in_indent: self.tab_in_indent,
        };
        match skip_gap(&mut self.reader, self.flow_depth == 0, before) {
            Err(e) => Err(e),
            Ok(after) => {
                self.simple_key_allowed = after.key_allowed;
                self.at_line_start = after.at_line_start;
                self.tab_in_indent = after.tab_in_indent;
                self.stale_simple_key();
                Ok(())
            },
        }
    }

    /// Drops a buffered key once scanning has moved past its line.
    fn stale_simple_key(&mut self)
        requires
            old(self).wf(),
        ensures
            final(self).wf(),
            final(self).same_source(old(self)),
            final(self)@ == (ScanState {
                key: match old(self)@.key {
                    Some(k) => if reader::position_at(old(self).text(), k.at).line
                        == reader::position_at(old(self).text(), old(self)@.pos).line {
                        Some(k)
                    } else {
                        None
                    },
                    None => None,
                },
                ..old(self)@
            }),
    {
        if let Some(k) = self.simple_key {
            if k.mark.line != self.reader.position().line {
                self.simple_key = None;
            }
        }
    }

    /// Consumes one character and produces a token spanning it.
    fn single_char(&mut self, kind: TokenKind, start: Position) -> (t: Token)
        requires
            old(self).wf(),
            old(self)@.pos < old(self).text().len(),
            start == reader::position_at(old(self).text(), old(self)@.pos),
        ensures
            final(self).wf(),
            final(self).same_source(old(self)),
            t@ == model::indicator(old(self).text(), old(self)@, kind@, 1).tok,
            final(self)@ == model::indicator(old(self).text(), old(self)@, kind@, 1).st,
    {
        self.reader.advance();
        Token::new(kind, Span::new(start, self.reader.position()))
    }

    /// Consumes a three-character document marker.
    fn scan_marker(&mut self, kind: TokenKind, start: Position) -> (t: Token)
        requires
            old(self).wf(),
            old(self)@.pos + 3 <= old(self).text().len(),
            start == reader::position_at(old(self).text(), old(self)@.pos),
        ensures
            final(self).wf(),
            final(self).same_source(old(self)),
            t@ == model::indicator(old(self).text(), old(self)@, kind@, 3).tok,
            final(self)@ == model::indicator(old(self).text(), old(self)@, kind@, 3).st,
    {
        advance_by(&mut self.reader, 3);
        Token::new(kind, Span::new(start, self.reader.position()))
    }

    /// Confirms a buffered key: it gets its `Key` token, and a
    /// `BlockMappingStart` if it opens a mapping.
    #[verifier::rlimit(30)]
    #[verifier::spinoff_prover]
    fn confirm_key(&mut self, key: SimpleKey)
        requires
            old(self).wf(),
            old(self).simple_key == Some(key),
        ensures
            final(self).wf(),
            final(self).same_source(old(self)),
            final(self)@ == model::key_confirmed(
                old(self).text(),
                old(self)@,
                KeyMark { number: old(self).emitted@.len() + key.index, at: key.at@ },
            ),
    {
        proof {
            lex::lemma_column_positive(self.text(), key.at@);
        }
        self.simple_key = None;
        self.simple_key_allowed = false;
        let col: i128 = key.mark.column as i128 - 1;
        let span = Span::new(key.mark, key.mark);
        if self.roll_indent(col) {
            self.insert_token(key.index, Token::new(TokenKind::BlockMappingStart, span));
            let n: usize = self.tokens.len();
            assert(key.index < n);
            self.insert_token(key.index + 1, Token::new(TokenKind::Key, span));
        } else {
            self.insert_token(key.index, Token::new(TokenKind::Key, span));
        }
    }

    /// Handles `:` in block context.
    fn fetch_block_value(&mut self, start: Position) -> (t: Token)
        requires
            old(self).wf(),
            old(self)@.pos < old(self).text().len(),
            start == reader::position_at(old(self).text(), old(self)@.pos),
        ensures
            final(self).wf(),
            final(self).same_source(old(self)),
            t@ == model::block_value(old(self).text(), old(self)@).tok,
            final(self)@ == model::block_value(old(self).text(), old(self)@).st,
    {
        match self.simple_key {
            Some(key) => self.confirm_key(key),
            None => {
                self.open_block_here(TokenKind::BlockMappingStart, start);
                self.simple_key_allowed = true;
            },
        }
        self.single_char(TokenKind::Value, start)
    }

    /// Handles an explicit `?` key in block context.
    fn fetch_block_key(&mut self, start: Position) -> (t: Token)
        requires
            old(self).wf(),
            old(self)@.pos < old(self).text().len(),
            start == reader::position_at(old(self).text(), old(self)@.pos),
        ensures
            final(self).wf(),
            final(self).same_source(old(self)),
            t@ == model::block_key(old(self).text(), old(self)@).tok,
            final(self)@ == model::block_key(old(self).text(), old(self)@).st,
    {
        self.open_block_here(TokenKind::BlockMappingStart, start);
        self.simple_key = None;
        self.simple_key_allowed = false;
        self.single_char(TokenKind::Key, start)
    }

    /// Handles a `-` block sequence entry.
    fn fetch_block_entry(&mut self, start: Position) -> (res: Result<Token, Error>)
        requires
            old(self).wf(),
            old(self)@.pos < old(self).text().len(),
            start == reader::position_at(old(self).text(), old(self)@.pos),
        ensures
            final(self).wf(),
            final(self).same_source(old(self)),
            match model::block_entry(old(self).text(), old(self)@) {
                Ok(p) => res matches Ok(t) && t@ == p.tok && final(self)@ == p.st,
                Err(f) => res matches Err(e) && e@ == f.fault && final(self)@ == f.st,
            },
    {
        if !self.simple_key_allowed {
            return Err(
                scan_error(&self.reader, start, "block sequence entries are not allowed here"),
            );
        }
        self.open_block_here(TokenKind::BlockSequenceStart, start);
        Ok(self.single_char(TokenKind::BlockEntry, start))
    }

    /// Handles a `---` marker.
    fn fetch_document_start(&mut self, start: Position) -> (t: Token)
        requires
            old(self).wf(),
            old(self)@.pos + 3 <= old(self).text().len(),
            start == reader::position_at(old(self).text(), old(self)@.pos),
        ensures
            final(self).wf(),
            final(self).same_source(old(self)),
            t@ == model::document_start(old(self).text(), old(self)@).tok,
            final(self)@ == model::document_start(old(self).text(), old(self)@).st,
    {
        proof {
            model::lemma_unrolled(self.text(), self@, -1);
        }
        self.unroll_indent(-1);
        self.simple_key = None;
        self.simple_key_allowed = true;
        if self.next_doc_needs_reset {
            self.tag_handles = TagHandles::new();
        }
        self.next_doc_needs_reset = true;
        self.pending_directives = false;
        self.yaml_directive_seen = false;
        self.doc_open = true;
        self.scan_marker(TokenKind::DocumentStart, start)
    }

    /// Handles a `...` marker.
    fn fetch_document_end(&mut self, start: Position) -> (res: Result<Token, Error>)
        requires
            old(self).wf(),
            old(self)@.pos + 3 <= old(self).text().len(),
            start == reader::position_at(old(self).text(), old(self)@.pos),
        ensures
            final(self).wf(),
            final(self).same_source(old(self)),
            match model::document_end(old(self).text(), old(self)@) {
                Ok(p) => res matches Ok(t) && t@ == p.tok && final(self)@ == p.st,
                Err(f) => res matches Err(e) && e@ == f.fault && final(self)@ == f.st,
            },
    {
        if self.pending_directives {
            return Err(
                scan_error(
                    &self.reader,
                    start,
                    "directives must be followed by a '---' document start",
                ),
            );
        }
        proof {
            model::lemma_unrolled(self.text(), self@, -1);
        }
        self.unroll_indent(-1);
        self.simple_key = None;
        self.simple_key_allowed = true;
        self.tag_handles = TagHandles::new();
        self.next_doc_needs_reset = true;
        self.doc_open = false;
        self.yaml_directive_seen = false;
        let token = self.scan_marker(TokenKind::DocumentEnd, start);
        let spaces: usize = leading_spaces(&self.reader);
        match self.reader.peek_nth(spaces) {
            None | Some('\n') | Some('\r') | Some('#') => Ok(token),
            Some(_) => Err(
                scan_error(
                    &self.reader,
                    start,
                    "content is not allowed after a '...' document end marker",
                ),
            ),
        }
    }

    /// Scans a node, a node property or a block entry.
    #[verifier::rlimit(30)]
    #[verifier::spinoff_prover]
    fn scan_node(&mut self, c: char, start: Position) -> (res: Result<Token, Error>)
        requires
            old(self).wf(),
            old(self)@.pos < old(self).text().len(),
            c == old(self).text()[old(self)@.pos],
            start == reader::position_at(old(self).text(), old(self)@.pos),
            !plain::plain_stop(old(self).text(), old(self)@.pos),
        ensures
            final(self).wf(),
            final(self).same_source(old(self)),
            match model::node(old(self).text(), old(self)@) {
                Ok(p) => res matches Ok(t) && t@ == p.tok && final(self)@ == p.st,
                Err(f) => res matches Err(e) && e@ == f.fault && final(self)@ == f.st,
            },
    {
        let ghost from = self@.pos;
        proof {
            self.reader.lemma_bounds();
            model::lemma_node(self.text(), self@);
        }
        let block: bool = self.flow_depth == 0;
        if introduces_node(c, block) {
            let scanned = scan_introduced(
                &mut self.reader,
                c,
                start,
                &self.tag_handles,
                self.indent,
                Ghost(from),
            );
            match scanned {
                Ok(kind) => Ok(Token::new(kind, Span::new(start, self.reader.position()))),
                Err(e) => Err(e),
            }
        } else if c == '-' && block && separator_ahead(&self.reader, 1) {
            self.fetch_block_entry(start)
        } else if c == '-' && !block && matches!(
            self.reader.peek_nth(1),
            Some(',') | Some(']') | Some('}')
        ) {
            Err(
                scan_error(
                    &self.reader,
                    start,
                    "'-' is not a valid plain scalar in a flow collection",
                ),
            )
        } else {
            let (value, end) = scan_plain(&mut self.reader, !block, self.indent);
            let kind = TokenKind::Scalar { value, style: ScalarStyle::Plain };
            Ok(Token::new(kind, Span::new(start, end)))
        }
    }

    /// Scans the content token that begins with `c`.
    fn scan_content(&mut self, c: char, start: Position) -> (res: Result<Token, Error>)
        requires
            old(self).wf(),
            old(self)@.pos < old(self).text().len(),
            c == old(self).text()[old(self)@.pos],
            !text::is_break(c),
            !text::is_blank(c),
            start == reader::position_at(old(self).text(), old(self)@.pos),
        ensures
            final(self).wf(),
            final(self).same_source(old(self)),
            match model::content(old(self).text(), old(self)@) {
                Ok(p) => res matches Ok(t) && t@ == p.tok && final(self)@ == p.st,
                Err(f) => res matches Err(e) && e@ == f.fault && final(self)@ == f.st,
            },
    {
        proof {
            self.reader.lemma_bounds();
        }
        if marker_ahead(&self.reader, '-') {
            return Ok(self.fetch_document_start(start));
        }
        if marker_ahead(&self.reader, '.') {
            return self.fetch_document_end(start);
        }
        match c {
            '[' => Ok(self.open_flow(TokenKind::FlowSequenceStart, start)),
            ']' => Ok(self.close_flow(TokenKind::FlowSequenceEnd, start)),
            '{' => Ok(self.open_flow(TokenKind::FlowMappingStart, start)),
            '}' => Ok(self.close_flow(TokenKind::FlowMappingEnd, start)),
            ',' => Ok(self.single_char(TokenKind::FlowEntry, start)),
            _ => {
                if c == ':' && self.flow_depth > 0 {
                    Ok(self.single_char(TokenKind::Value, start))
                } else if value_indicator(&self.reader) {
                    Ok(self.fetch_block_value(start))
                } else if c == '?' && terminator_next(&self.reader) {
                    if self.flow_depth == 0 {
                        Ok(self.fetch_block_key(start))
                    } else {
                        Ok(self.single_char(TokenKind::Key, start))
                    }
                } else {
                    self.scan_node(c, start)
                }
            },
        }
    }

    /// Consumes a bracket that opens a flow collection.
    fn open_flow(&mut self, kind: TokenKind, start: Position) -> (t: Token)
        requires
            old(self).wf(),
            old(self)@.pos < old(self).text().len(),
            start == reader::position_at(old(self).text(), old(self)@.pos),
        ensures
            final(self).wf(),
            final(self).same_source(old(self)),
            ({
                let p = model::indicator(
                    old(self).text(),
                    model::flow_opened(old(self)@),
                    kind@,
                    1,
                );
                t@ == p.tok && final(self)@ == p.st
            }),
    {
        proof {
            self.reader.lemma_bounds();
        }
        let t = self.single_char(kind, start);
        self.flow_depth = self.flow_depth + 1;
        t
    }

    /// Consumes a bracket that closes a flow collection.
    fn close_flow(&mut self, kind: TokenKind, start: Position) -> (t: Token)
        requires
            old(self).wf(),
            old(self)@.pos < old(self).text().len(),
            start == reader::position_at(old(self).text(), old(self)@.pos),
        ensures
            final(self).wf(),
            final(self).same_source(old(self)),
            ({
                let p = model::indicator(
                    old(self).text(),
                    model::flow_closed(old(self)@),
                    kind@,
                    1,
                );
                t@ == p.tok && final(self)@ == p.st
            }),
    {
        if self.flow_depth > 0 {
            self.flow_depth = self.flow_depth - 1;
        }
        self.single_char(kind, start)
    }

    /// Handles a directive line.
    fn fetch_directive(&mut self) -> (res: Result<(), Error>)
        requires
            old(self).wf(),
            old(self)@.pos < old(self).text().len(),
            !old(self)@.ended,
        ensures
            final(self).wf(),
            final(self).same_source(old(self)),
            match model::directive_step(old(self).text(), old(self)@) {
                Ok(st) => res is Ok && final(self)@ == st,
                Err(f) => res matches Err(e) && e@ == f.fault && final(self)@ == f.st,
            },
    {
        if self.doc_open {
            let pos = self.reader.position();
            return Err(
                scan_error(
                    &self.reader,
                    pos,
                    "directives must be preceded by a '...' document end",
                ),
            );
        }
        if self.next_doc_needs_reset {
            self.tag_handles = TagHandles::new();
            self.next_doc_needs_reset = false;
        }
        let scanned = scan_directive(
            &mut self.reader,
            &mut self.tag_handles,
            &mut self.yaml_directive_seen,
        );
        match scanned {
            Ok(()) => {
                self.pending_directives = true;
                Ok(())
            },
            Err(e) => Err(e),
        }
    }

    /// Handles the end of the input.
    fn fetch_stream_end(&mut self) -> (res: Result<(), Error>)
        requires
            old(self).wf(),
        ensures
            final(self).wf(),
            final(self).same_source(old(self)),
            match model::end_step(old(self).text(), old(self)@) {
                Ok(st) => res is Ok && final(self)@ == st,
                Err(f) => res matches Err(e) && e@ == f.fault && final(self)@ == f.st,
            },
    {
        let pos = self.reader.position();
        if self.pending_directives {
            return Err(
                scan_error(
                    &self.reader,
                    pos,
                    "directives must be followed by a '---' document start",
                ),
            );
        }
        self.simple_key = None;
        proof {
            model::lemma_unrolled(self.text(), self@, -1);
        }
        self.unroll_indent(-1);
        self.push_token(Token::new(TokenKind::StreamEnd, Span::new(pos, pos)));
        self.stream_end_produced = true;
        Ok(())
    }

    /// Buffers the node at the cursor as a possible key, where one is allowed.
    fn save_simple_key(&mut self, c: char, mark: Position)
        requires
            old(self).wf(),
            !old(self)@.ended,
            old(self)@.pos < old(self).text().len(),
            c == old(self).text()[old(self)@.pos],
            mark == reader::position_at(old(self).text(), old(self)@.pos),
        ensures
            final(self).wf(),
            final(self).same_source(old(self)),
            final(self)@ == model::key_marked(old(self).text(), old(self)@),
    {
        if self.flow_depth == 0 && can_start_simple_key(c) && self.simple_key_allowed {
            self.simple_key = Some(
                SimpleKey { index: self.tokens.len(), mark, at: Ghost(self@.pos) },
            );
        }
    }

    /// Adds a content token that began at `start` to the queue.
    fn add_token(&mut self, token: Token, start: Position, Ghost(at): Ghost<int>) -> (res: Result<
        (),
        Error,
    >)
        requires
            old(self).wf(),
            start == reader::position_at(old(self).text(), at),
        ensures
            final(self).wf(),
            final(self).same_source(old(self)),
            match model::token_added(
                old(self).text(),
                at,
                (model::Produced { st: old(self)@, tok: token@ }),
            ) {
                Ok(st) => res is Ok && final(self)@ == st,
                Err(f) => res matches Err(e) && e@ == f.fault && final(self)@ == f.st,
            },
    {
        let block: bool = self.flow_depth == 0;
        if block && !self.doc_open && !matches!(
            &token.kind,
            TokenKind::DocumentStart | TokenKind::DocumentEnd
        ) {
            if self.pending_directives {
                return Err(
                    Error::at(
                        ErrorKind::Scan,
                        "directives must be followed by a '---' document start",
                        Span::new(start, start),
                    ),
                );
            }
            self.doc_open = true;
        }
        if block && is_node_token(&token.kind) {
            self.simple_key_allowed = is_block_scalar(&token.kind);
        }
        self.push_token(token);
        Ok(())
    }

    /// Takes the step from the start of a token.
    fn fetch_token(&mut self) -> (res: Result<(), Error>)
        requires
            old(self).wf(),
            !old(self)@.ended,
            old(self)@.pos < old(self).text().len() ==> !text::is_break(
                old(self).text()[old(self)@.pos],
            ) && !text::is_blank(old(self).text()[old(self)@.pos]),
        ensures
            final(self).wf(),
            final(self).same_source(old(self)),
            match model::token_step(old(self).text(), old(self)@) {
                Ok(st) => res is Ok && final(self)@ == st,
                Err(f) => res matches Err(e) && e@ == f.fault && final(self)@ == f.st,
            },
    {
        let ghost at = self@.pos;
        proof {
            self.reader.lemma_bounds();
            model::lemma_unrolled(self.text(), self@, lex::indent_at(self.text(), at));
        }
        let start = self.reader.position();
        if self.flow_depth == 0 && self.reader.peek() == Some('%') && start.column == 1 {
            return self.fetch_directive();
        }
        if self.flow_depth == 0 && self.tab_in_indent && !self.reader.is_eof() {
            return Err(scan_error(&self.reader, start, "tabs cannot be used for indentation"));
        }
        let col: i128 = indent_of(&self.reader);
        self.unroll_indent(col);
        match self.reader.peek() {
            None => self.fetch_stream_end(),
            Some(c) => {
                self.save_simple_key(c, start);
                match self.scan_content(c, start) {
                    Ok(token) => self.add_token(token, start, Ghost(at)),
                    Err(e) => Err(e),
                }
            },
        }
    }

    /// Produces one or more tokens into the queue.
    fn fetch_more_tokens(&mut self) -> (res: Result<(), Error>)
        requires
            old(self).wf(),
            !old(self)@.ended,
        ensures
            final(self).wf(),
            final(self).same_source(old(self)),
            match model::fetch(old(self).text(), old(self).limits(), old(self)@) {
                Ok(st) => res is Ok && final(self)@ == st,
                Err(f) => res matches Err(e) && e@ == f.fault && final(self)@ == f.st,
            },
    {
        if !self.started {
            self.started = true;
            if self.reader.input_len() > self.limits.max_input_bytes {
                self.stream_end_produced = true;
                self.simple_key = None;
                let pos = Position::start();
                return Err(
                    Error::at(
                        ErrorKind::LimitExceeded,
                        "input exceeds the maximum allowed size",
                        Span::new(pos, pos),
                    ),
                );
            }
            let pos = self.reader.position();
            self.push_token(Token::new(TokenKind::StreamStart, Span::new(pos, pos)));
            return Ok(());
        }
        proof {
            self.reader.lemma_bounds();
            model::lemma_after_gap(self.text(), self@);
        }
        match self.skip_to_next_token() {
            Err(e) => Err(e),
            Ok(()) => self.fetch_token(),
        }
    }

    /// Returns the next token, or `None` once the stream has ended. A token is
    /// held back while a buffered key may still put tokens before it.
    pub fn next_token(&mut self) -> (res: Result<Option<Token>, Error>)
        requires
            old(self).wf(),
        ensures
            final(self).wf(),
            final(self).text() == old(self).text(),
            final(self).limits() == old(self).limits(),
            ({
                let n = old(self).emitted().len() as int;
                match model::settled(old(self).text(), old(self).limits(), old(self)@, n) {
                    Err(f) => res matches Err(e) && e@ == f.fault && final(self)@ == f.st,
                    Ok(st) => {
                        &&& final(self)@ == st
                        &&& res matches Ok(next)
                        &&& match next {
                            Some(t) => {
                                &&& n < st.out.len()
                                &&& t@ == st.out[n]
                                &&& final(self).emitted() == old(self).emitted().push(t@)
                            },
                            None => {
                                &&& n == st.out.len()
                                &&& st.ended
                                &&& final(self).emitted() == old(self).emitted()
                            },
                        }
                    },
                }
            }),
    {
        let ghost n = self.emitted@.len() as int;
        while !(self.tokens.len() > 0 && self.simple_key.is_none()) && !self.stream_end_produced
            invariant
                self.wf(),
                self.same_source(old(self)),
                n == self.emitted@.len(),
                model::settled(self.text(), self.limits(), self@, n) == model::settled(
                    old(self).text(),
                    old(self).limits(),
                    old(self)@,
                    n,
                ),
            decreases model::remaining(self.text(), self@),
        {
            proof {
                self.reader.lemma_bounds();
                model::lemma_fetch(self.text(), self.limits(), self@);
            }
            match self.fetch_more_tokens() {
                Err(e) => {
                    return Err(e);
                },
                Ok(()) => {},
            }
        }
        let ghost st = self@;
        let ghost queue = self.tokens@;
        match self.tokens.pop_front() {
            None => {
                assert(self@ == st);
                Ok(None)
            },
            Some(t) => {
                self.emitted = Ghost(self.emitted@.push(t@));
                proof {
                    assert(st.out == old(self).emitted@ + token::toks(queue));
                    assert(self@.out == st.out);
                    assert(self@ == st);
                    assert(st.out[n] == t@);
                }
                Ok(Some(t))
            },
        }
    }
}

/// Whether a token is a node or a property of one.
fn is_node_token(kind: &TokenKind) -> (b: bool)
    ensures
        b == model::is_node(kind@),
{
    matches!(
        kind,
        TokenKind::Scalar { .. } | TokenKind::Anchor(_) | TokenKind::Alias(_) | TokenKind::Tag(_)
    )
}

/// Whether a token is a literal or folded scalar.
fn is_block_scalar(kind: &TokenKind) -> (b: bool)
    ensures
        b == model::is_block_scalar(kind@),
{
    match kind {
        TokenKind::Scalar { style, .. } => *style == ScalarStyle::Literal || *style
            == ScalarStyle::Folded,
        _ => false,
    }
}

/// Whether `c` begins a node that could serve as a block mapping key.
fn can_start_simple_key(c: char) -> (b: bool)
    ensures
        b == model::starts_key(c),
{
    !flow_char(c) && c != '-' && c != '?' && c != ':' && c != '#' && c != '|' && c != '>'
}

/// Tokenizes `input` fully.
pub fn tokenize(input: &str, limits: Limits) -> (res: Result<Vec<Token>, Error>)
    ensures
        match model::tokens(input@, limits) {
            Ok(out) => res matches Ok(v) && token::toks(v@) == out,
            Err(f) => res matches Err(e) && e@ == f,
        },
{
    let mut scanner = Scanner::new(input, limits);
    let mut tokens: Vec<Token> = Vec::new();
    assert(token::toks(tokens@) == scanner.emitted());
    loop
        invariant
            scanner.wf(),
            scanner.text() == input@,
            scanner.limits() == limits,
            token::toks(tokens@) == scanner.emitted(),
            model::inside(input@, scanner@),
            scanner.emitted().len() <= scanner@.out.len(),
            model::run(input@, limits, scanner@) == model::run(
                input@,
                limits,
                model::initial_state(),
            ),
        decreases model::remaining(input@, scanner@), scanner@.out.len() - scanner.emitted().len(),
    {
        proof {
            model::lemma_settled(input@, limits, scanner@, scanner.emitted().len() as int);
        }
        match scanner.next_token() {
            Err(e) => {
                return Err(e);
            },
            Ok(None) => {
                return Ok(tokens);
            },
            Ok(Some(t)) => {
                tokens.push(t);
                assert(token::toks(tokens@) == scanner.emitted());
            },
        }
    }
}

fn introduces_node(c: char, block: bool) -> (b: bool)
    ensures
        b == model::introduces_node(c, block),
{
    c == '\'' || c == '"' || c == '&' || c == '*' || c == '!' || (block && (c == '|' || c == '>'))
}

/// Scans the node or property that `c` introduces.
fn scan_introduced(
    r: &mut Reader,
    c: char,
    start: Position,
    handles: &TagHandles,
    indent: i128,
    Ghost(from): Ghost<int>,
) -> (res: Result<TokenKind, Error>)
    requires
        old(r).wf(),
        old(r).at() < old(r).text().len(),
        c == old(r).text()[old(r).at()],
        model::introduces_node(c, true),
        from == old(r).at(),
        start == reader::position_at(old(r).text(), from),
        is_indent(indent as int),
    ensures
        final(r).wf(),
        final(r).text() == old(r).text(),
        final(r).at() >= old(r).at(),
        match model::introduced(old(r).text(), old(r).at(), handles@, indent as int) {
            Ok(n) => res matches Ok(kind) && kind@ == n.0 && final(r).at() == n.1,
            Err(f) => res matches Err(e) && e@ == f.fault && final(r).at() == f.at,
        },
{
    match c {
        '\'' => {
            r.advance();
            match scan_single_quoted(r, start, Ghost(from)) {
                Ok(value) => Ok(TokenKind::Scalar { value, style: ScalarStyle::SingleQuoted }),
                Err(e) => Err(e),
            }
        },
        '"' => {
            r.advance();
            match scan_double_quoted(r, start, Ghost(from)) {
                Ok(value) => Ok(TokenKind::Scalar { value, style: ScalarStyle::DoubleQuoted }),
                Err(e) => Err(e),
            }
        },
        '&' => match scan_anchor_or_alias(r, true) {
            Ok(name) => Ok(TokenKind::Anchor(name)),
            Err(e) => Err(e),
        },
        '*' => match scan_anchor_or_alias(r, false) {
            Ok(name) => Ok(TokenKind::Alias(name)),
            Err(e) => Err(e),
        },
        '!' => match scan_tag(r, handles) {
            Ok(tag) => Ok(TokenKind::Tag(tag)),
            Err(e) => Err(e),
        },
        '|' => {
            r.advance();
            match scan_block_scalar(r, start, true, indent, Ghost(from)) {
                Ok(value) => Ok(TokenKind::Scalar { value, style: ScalarStyle::Literal }),
                Err(e) => Err(e),
            }
        },
        _ => {
            r.advance();
            match scan_block_scalar(r, start, false, indent, Ghost(from)) {
                Ok(value) => Ok(TokenKind::Scalar { value, style: ScalarStyle::Folded }),
                Err(e) => Err(e),
            }
        },
    }
}

} // verus!
