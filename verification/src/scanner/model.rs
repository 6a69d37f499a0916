//! The scanner as a mathematical state machine.

use crate::error;
use crate::error::{ErrorKind, Fault, Position, Span};
use crate::meta::ScalarStyle;
use crate::options::Limits;
use crate::scanner::block_scalar;
use crate::scanner::lex;
use crate::scanner::lex::{Run, Stop};
use crate::scanner::plain;
use crate::scanner::properties;
use crate::scanner::quoted;
use crate::scanner::reader;
use crate::scanner::token::{Lexeme, Tok};
use crate::text;
use vstd::prelude::*;

verus! {

/// A node that becomes a mapping key if a `:` follows it on its line.
pub struct KeyMark {
    /// Its place among all tokens.
    pub number: int,
    /// Where it begins in the text.
    pub at: int,
}

/// What the scanner knows between two tokens.
#[verifier::ext_equal]
pub struct ScanState {
    /// How much of the text is consumed.
    pub pos: int,
    /// All tokens produced so far.
    pub out: Seq<Tok>,
    pub started: bool,
    pub ended: bool,
    /// How many flow collections are open.
    pub flow_depth: nat,
    /// The column of the innermost block collection; -1 when there is none.
    pub indent: int,
    /// The columns of the block collections around it, outermost first.
    pub indents: Seq<int>,
    /// Whether a mapping key may begin here.
    pub key_allowed: bool,
    pub key: Option<KeyMark>,
    /// The tag handles in force.
    pub handles: Map<Seq<char>, Seq<char>>,
    /// Whether the handles go back to the default at the next document.
    pub needs_reset: bool,
    pub at_line_start: bool,
    /// Whether the line so far holds a tab and nothing but blanks.
    pub tab_in_indent: bool,
    /// Whether the current document has begun.
    pub doc_open: bool,
    /// Whether directives wait for their `---`.
    pub pending_directives: bool,
    pub yaml_seen: bool,
}

/// Nothing read yet.
pub open spec fn initial_state() -> ScanState {
    ScanState {
        pos: 0,
        out: Seq::empty(),
        started: false,
        ended: false,
        flow_depth: 0,
        indent: -1,
        indents: Seq::empty(),
        key_allowed: true,
        key: None,
        handles: properties::default_handles(),
        needs_reset: true,
        at_line_start: true,
        tab_in_indent: false,
        doc_open: false,
        pending_directives: false,
        yaml_seen: false,
    }
}

/// A token that covers the text from `i` to `j`.
pub open spec fn tok(text: Seq<char>, kind: Lexeme, i: int, j: int) -> Tok {
    Tok { kind, span: reader::span_at(text, i, j) }
}

// ---------------------------------------------------------------------------
// Between tokens
// ---------------------------------------------------------------------------

/// The scanner on its way to the next token.
pub struct Gap {
    pub pos: int,
    /// Whether a comment may begin here.
    pub separated: bool,
    pub key_allowed: bool,
    pub at_line_start: bool,
    pub tab_in_indent: bool,
}

/// Skips blanks, line breaks and comments. `block` says that no flow collection
/// is open.
pub open spec fn skip_gap(text: Seq<char>, block: bool, g: Gap) -> Result<Gap, Stop>
    decreases text.len() - g.pos,
{
    match reader::char_at(text, g.pos) {
        Some(c) => if c == ' ' {
            skip_gap(text, block, Gap { pos: g.pos + 1, separated: true, ..g })
        } else if c == '\t' {
            let tab_in_indent = g.tab_in_indent || block && g.at_line_start;
            skip_gap(text, block, Gap { pos: g.pos + 1, separated: true, tab_in_indent, ..g })
        } else if text::is_break(c) {
            skip_gap(
                text,
                block,
                Gap {
                    pos: g.pos + 1,
                    separated: true,
                    key_allowed: g.key_allowed || block,
                    at_line_start: true,
                    tab_in_indent: false,
                },
            )
        } else if c == '#' {
            if g.separated {
                proof {
                    lex::lemma_run_end(Run::Line, text, g.pos + 1);
                }
                skip_gap(text, block, Gap { pos: lex::run_end(Run::Line, text, g.pos), ..g })
            } else {
                Err(
                    lex::stop(
                        text,
                        g.pos,
                        g.pos,
                        "a comment must be preceded by whitespace"@,
                    ),
                )
            }
        } else {
            Ok(Gap { at_line_start: false, ..g })
        },
        None => Ok(Gap { at_line_start: false, ..g }),
    }
}

/// A step that failed: what went wrong, and the state that is left.
#[verifier::ext_equal]
pub struct Failure {
    pub fault: Fault,
    pub st: ScanState,
}

/// The failure of a step that leaves `st` behind. It began at `start`.
pub open spec fn failed(
    text: Seq<char>,
    start: int,
    message: Seq<char>,
    st: ScanState,
) -> Failure {
    Failure { fault: lex::scan_fault(text, start, st.pos, message), st }
}

/// The state at the start of the next token: the gap is skipped, and a key mark
/// of an earlier line is dropped. A comment where none may begin fails before
/// anything is skipped.
pub open spec fn after_gap(text: Seq<char>, st: ScanState) -> Result<ScanState, Failure> {
    let before = Gap {
        pos: st.pos,
        separated: reader::position_at(text, st.pos).column == 1,
        key_allowed: st.key_allowed,
        at_line_start: st.at_line_start,
        tab_in_indent: st.tab_in_indent,
    };
    match skip_gap(text, st.flow_depth == 0, before) {
        Err(stop) => Err(Failure { fault: stop.fault, st }),
        Ok(g) => Ok(
            ScanState {
                pos: g.pos,
                key_allowed: g.key_allowed,
                at_line_start: g.at_line_start,
                tab_in_indent: g.tab_in_indent,
                key: match st.key {
                    Some(k) => if reader::position_at(text, k.at).line == reader::position_at(
                        text,
                        g.pos,
                    ).line {
                        Some(k)
                    } else {
                        None
                    },
                    None => None,
                },
                ..st
            },
        ),
    }
}

// ---------------------------------------------------------------------------
// Indentation
// ---------------------------------------------------------------------------

/// Closes the block collections deeper than `col`, one `BlockEnd` each. Inert
/// inside flow collections.
pub open spec fn unrolled(text: Seq<char>, st: ScanState, col: int) -> ScanState
    decreases st.indents.len() + if st.indent > -1 { 1int } else { 0 },
{
    if st.flow_depth == 0 && st.indent > col && col >= -1 {
        let popped = if st.indents.len() == 0 {
            ScanState { indent: -1, ..st }
        } else {
            ScanState { indent: st.indents.last(), indents: st.indents.drop_last(), ..st }
        };
        unrolled(
            text,
            ScanState { out: st.out.push(tok(text, Lexeme::BlockEnd, st.pos, st.pos)), ..popped },
            col,
        )
    } else {
        st
    }
}

/// Opens a block collection at `col` if that is deeper than the current one: its
/// start token, located at `mark`, goes to place `number`.
pub open spec fn rolled(
    text: Seq<char>,
    st: ScanState,
    col: int,
    kind: Lexeme,
    mark: int,
    number: int,
) -> ScanState {
    if st.flow_depth == 0 && st.indent < col {
        ScanState {
            indents: st.indents.push(st.indent),
            indent: col,
            out: st.out.insert(number, tok(text, kind, mark, mark)),
            ..st
        }
    } else {
        st
    }
}

// ---------------------------------------------------------------------------
// Content
// ---------------------------------------------------------------------------

/// A token and the state after it; the token is not yet in `out`.
pub struct Produced {
    pub st: ScanState,
    pub tok: Tok,
}

/// Consumes `n` characters and produces a token that covers them.
pub open spec fn indicator(text: Seq<char>, st: ScanState, kind: Lexeme, n: int) -> Produced {
    Produced {
        st: ScanState { pos: st.pos + n, ..st },
        tok: tok(text, kind, st.pos, st.pos + n),
    }
}

/// A scanned text and the place after it become a scalar of the given style.
pub open spec fn scalar(scanned: Result<(Seq<char>, int), Stop>, style: ScalarStyle) -> Result<
    (Lexeme, int),
    Stop,
> {
    match scanned {
        Err(f) => Err(f),
        Ok((value, end)) => Ok((Lexeme::Scalar { value, style }, end)),
    }
}

/// The character introduces a quoted or block scalar, an anchor, an alias or a
/// tag. Block scalars exist outside flow collections only.
pub open spec fn introduces_node(c: char, block: bool) -> bool {
    c == '\'' || c == '"' || c == '&' || c == '*' || c == '!' || (block && (c == '|' || c == '>'))
}

/// The node or property that the character at `i` introduces, and the place
/// after it. `indent` is the column of the block collection around it.
pub open spec fn introduced(
    text: Seq<char>,
    i: int,
    handles: Map<Seq<char>, Seq<char>>,
    indent: int,
) -> Result<(Lexeme, int), Stop> {
    let c = text[i];
    if c == '\'' {
        scalar(
            quoted::single_quoted(text, i, i + 1, Seq::empty()),
            ScalarStyle::SingleQuoted,
        )
    } else if c == '"' {
        scalar(
            quoted::double_quoted(text, i, i + 1, Seq::empty()),
            ScalarStyle::DoubleQuoted,
        )
    } else if c == '&' {
        match properties::node_name(text, i, true) {
            Err(f) => Err(f),
            Ok((name, end)) => Ok((Lexeme::Anchor(name), end)),
        }
    } else if c == '*' {
        match properties::node_name(text, i, false) {
            Err(f) => Err(f),
            Ok((name, end)) => Ok((Lexeme::Alias(name), end)),
        }
    } else if c == '!' {
        match properties::tag(text, i, handles) {
            Err(f) => Err(f),
            Ok((tag, end)) => Ok((Lexeme::Tag(tag), end)),
        }
    } else if c == '|' {
        scalar(
            block_scalar::block_scalar(text, i, i + 1, true, indent),
            ScalarStyle::Literal,
        )
    } else {
        scalar(
            block_scalar::block_scalar(text, i, i + 1, false, indent),
            ScalarStyle::Folded,
        )
    }
}

/// `---`: closes everything and begins a document.
pub open spec fn document_start(text: Seq<char>, st: ScanState) -> Produced {
    indicator(
        text,
        ScanState {
            key: None,
            key_allowed: true,
            handles: if st.needs_reset {
                properties::default_handles()
            } else {
                st.handles
            },
            needs_reset: true,
            pending_directives: false,
            yaml_seen: false,
            doc_open: true,
            ..unrolled(text, st, -1)
        },
        Lexeme::DocumentStart,
        3,
    )
}

/// The wording of the fault of directives without a document.
pub open spec fn stray_directives() -> Seq<char> {
    "directives must be followed by a '---' document start"@
}

/// `...`: closes everything and ends the document. Only spaces and a comment may
/// follow on its line.
pub open spec fn document_end(text: Seq<char>, st: ScanState) -> Result<Produced, Failure> {
    let next = reader::char_at(text, lex::run_end(Run::Spaces, text, st.pos + 3));
    let ended = indicator(
        text,
        ScanState {
            key: None,
            key_allowed: true,
            handles: properties::default_handles(),
            needs_reset: true,
            yaml_seen: false,
            doc_open: false,
            ..unrolled(text, st, -1)
        },
        Lexeme::DocumentEnd,
        3,
    );
    if st.pending_directives {
        Err(failed(text, st.pos, stray_directives(), st))
    } else if next matches Some(c) && !text::is_break(c) && c != '#' {
        Err(
            failed(
                text,
                st.pos,
                "content is not allowed after a '...' document end marker"@,
                ended.st,
            ),
        )
    } else {
        Ok(ended)
    }
}

/// The marked key `k` is a key: it gets its `Key` token, and its mapping a start
/// token if the key opens one.
pub open spec fn key_confirmed(text: Seq<char>, st: ScanState, k: KeyMark) -> ScanState {
    let col = lex::indent_at(text, k.at);
    let open = rolled(text, st, col, Lexeme::BlockMappingStart, k.at, k.number);
    let number = k.number + open.out.len() - st.out.len();
    ScanState {
        key: None,
        key_allowed: false,
        out: open.out.insert(number, tok(text, Lexeme::Key, k.at, k.at)),
        ..open
    }
}

/// `:` outside flow collections: confirms the marked key. Without a mark, the
/// value may itself open a mapping.
pub open spec fn block_value(text: Seq<char>, st: ScanState) -> Produced {
    let ready = match st.key {
        Some(k) => key_confirmed(text, st, k),
        None => {
            let col = lex::indent_at(text, st.pos);
            let number = st.out.len() as int;
            ScanState {
                key_allowed: true,
                ..rolled(text, st, col, Lexeme::BlockMappingStart, st.pos, number)
            }
        },
    };
    indicator(text, ready, Lexeme::Value, 1)
}

/// `?` outside flow collections.
pub open spec fn block_key(text: Seq<char>, st: ScanState) -> Produced {
    let col = lex::indent_at(text, st.pos);
    let number = st.out.len() as int;
    indicator(
        text,
        ScanState {
            key: None,
            key_allowed: false,
            ..rolled(text, st, col, Lexeme::BlockMappingStart, st.pos, number)
        },
        Lexeme::Key,
        1,
    )
}

/// `-` outside flow collections, allowed where a key is.
pub open spec fn block_entry(text: Seq<char>, st: ScanState) -> Result<Produced, Failure> {
    let col = lex::indent_at(text, st.pos);
    let number = st.out.len() as int;
    if st.key_allowed {
        Ok(
            indicator(
                text,
                rolled(text, st, col, Lexeme::BlockSequenceStart, st.pos, number),
                Lexeme::BlockEntry,
                1,
            ),
        )
    } else {
        Err(failed(text, st.pos, "block sequence entries are not allowed here"@, st))
    }
}

/// A plain scalar; its token covers the content only.
pub open spec fn plain_token(text: Seq<char>, st: ScanState) -> Produced {
    let scalar = plain::plain_scalar(text, st.pos, st.flow_depth > 0, st.indent);
    Produced {
        st: ScanState { pos: scalar.end, ..st },
        tok: tok(
            text,
            Lexeme::Scalar { value: scalar.value, style: ScalarStyle::Plain },
            st.pos,
            scalar.content_end,
        ),
    }
}

/// The state with one more flow collection open.
pub open spec fn flow_opened(st: ScanState) -> ScanState {
    ScanState { flow_depth: st.flow_depth + 1, ..st }
}

/// The state with one flow collection less open.
pub open spec fn flow_closed(st: ScanState) -> ScanState {
    ScanState { flow_depth: (if st.flow_depth > 0 { st.flow_depth - 1 } else { 0 }) as nat, ..st }
}

/// The node, node property or block entry that begins at the current character.
pub open spec fn node(text: Seq<char>, st: ScanState) -> Result<Produced, Failure> {
    let i = st.pos;
    let c = text[i];
    let block = st.flow_depth == 0;
    let next = reader::char_at(text, i + 1);
    if introduces_node(c, block) {
        match introduced(text, i, st.handles, st.indent) {
            Err(stop) => Err(
                Failure { fault: stop.fault, st: ScanState { pos: stop.at, ..st } },
            ),
            Ok((kind, end)) => Ok(
                Produced { st: ScanState { pos: end, ..st }, tok: tok(text, kind, i, end) },
            ),
        }
    } else if c == '-' && block && lex::separator_at(text, i + 1) {
        block_entry(text, st)
    } else if c == '-' && !block && (next == Some(',') || next == Some(']') || next == Some('}')) {
        Err(failed(text, i, "'-' is not a valid plain scalar in a flow collection"@, st))
    } else {
        Ok(plain_token(text, st))
    }
}

/// The token that begins at the current character.
pub open spec fn content(text: Seq<char>, st: ScanState) -> Result<Produced, Failure> {
    let i = st.pos;
    let c = text[i];
    let block = st.flow_depth == 0;
    if lex::marker_at(text, i, '-') {
        Ok(document_start(text, st))
    } else if lex::marker_at(text, i, '.') {
        document_end(text, st)
    } else if c == '[' {
        Ok(indicator(text, flow_opened(st), Lexeme::FlowSequenceStart, 1))
    } else if c == ']' {
        Ok(indicator(text, flow_closed(st), Lexeme::FlowSequenceEnd, 1))
    } else if c == '{' {
        Ok(indicator(text, flow_opened(st), Lexeme::FlowMappingStart, 1))
    } else if c == '}' {
        Ok(indicator(text, flow_closed(st), Lexeme::FlowMappingEnd, 1))
    } else if c == ',' {
        Ok(indicator(text, st, Lexeme::FlowEntry, 1))
    } else if c == ':' && !block {
        Ok(indicator(text, st, Lexeme::Value, 1))
    } else if lex::value_indicator_at(text, i) {
        Ok(block_value(text, st))
    } else if c == '?' && lex::terminator_at(text, i + 1) {
        if block {
            Ok(block_key(text, st))
        } else {
            Ok(indicator(text, st, Lexeme::Key, 1))
        }
    } else {
        node(text, st)
    }
}

/// A token that is a node or a property of one.
pub open spec fn is_node(kind: Lexeme) -> bool {
    kind is Scalar || kind is Anchor || kind is Alias || kind is Tag
}

/// A literal or folded scalar.
pub open spec fn is_block_scalar(kind: Lexeme) -> bool {
    kind matches Lexeme::Scalar { style, .. } && (style == ScalarStyle::Literal || style
        == ScalarStyle::Folded)
}

/// A character that can begin a mapping key.
pub open spec fn starts_key(c: char) -> bool {
    !text::is_flow_indicator(c) && c != '-' && c != '?' && c != ':' && c != '#' && c != '|' && c
        != '>'
}

// ---------------------------------------------------------------------------
// Steps
// ---------------------------------------------------------------------------

/// The first step checks the size of the input and produces `StreamStart`. After a
/// failure the stream has ended.
pub open spec fn start(text: Seq<char>, limits: Limits, st: ScanState) -> Result<
    ScanState,
    Failure,
> {
    let origin = Position { offset: 0, line: 1, column: 1 };
    if reader::byte_offset(text, text.len() as int) > limits.max_input_bytes {
        Err(
            Failure {
                fault: error::fault(
                    ErrorKind::LimitExceeded,
                    "input exceeds the maximum allowed size"@,
                    Span { start: origin, end: origin },
                ),
                st: ScanState { started: true, ended: true, key: None, ..st },
            },
        )
    } else {
        Ok(
            ScanState {
                started: true,
                out: st.out.push(tok(text, Lexeme::StreamStart, st.pos, st.pos)),
                ..st
            },
        )
    }
}

/// A `%` line: only valid before a document.
pub open spec fn directive_step(text: Seq<char>, st: ScanState) -> Result<ScanState, Failure> {
    let handles = if st.needs_reset {
        properties::default_handles()
    } else {
        st.handles
    };
    if st.doc_open {
        Err(failed(text, st.pos, "directives must be preceded by a '...' document end"@, st))
    } else {
        match properties::directive(text, st.pos, handles, st.yaml_seen) {
            Err(stop) => Err(
                Failure {
                    fault: stop.fault,
                    st: ScanState { pos: stop.at, handles, needs_reset: false, ..st },
                },
            ),
            Ok(d) => Ok(
                ScanState {
                    pos: d.end,
                    handles: d.handles,
                    yaml_seen: d.yaml_seen,
                    needs_reset: false,
                    pending_directives: true,
                    ..st
                },
            ),
        }
    }
}

/// The end of the input.
pub open spec fn end_step(text: Seq<char>, st: ScanState) -> Result<ScanState, Failure> {
    if st.pending_directives {
        Err(failed(text, st.pos, stray_directives(), st))
    } else {
        let closed = unrolled(text, ScanState { key: None, ..st }, -1);
        Ok(
            ScanState {
                out: closed.out.push(tok(text, Lexeme::StreamEnd, st.pos, st.pos)),
                ended: true,
                ..closed
            },
        )
    }
}

/// The state with a key mark here, where one is allowed.
pub open spec fn key_marked(text: Seq<char>, st: ScanState) -> ScanState {
    if st.flow_depth == 0 && starts_key(text[st.pos]) && st.key_allowed {
        ScanState { key: Some(KeyMark { number: st.out.len() as int, at: st.pos }), ..st }
    } else {
        st
    }
}

/// Adds a produced token. Outside flow collections a token other than a marker
/// opens the document, and after a node no key may begin on the same line.
pub open spec fn token_added(text: Seq<char>, at: int, p: Produced) -> Result<ScanState, Failure> {
    let block = p.st.flow_depth == 0;
    let opens = block && !p.st.doc_open && !(p.tok.kind is DocumentStart)
        && !(p.tok.kind is DocumentEnd);
    if opens && p.st.pending_directives {
        Err(Failure { fault: lex::scan_fault(text, at, at, stray_directives()), st: p.st })
    } else {
        Ok(
            ScanState {
                doc_open: p.st.doc_open || opens,
                key_allowed: if block && is_node(p.tok.kind) {
                    is_block_scalar(p.tok.kind)
                } else {
                    p.st.key_allowed
                },
                out: p.st.out.push(p.tok),
                ..p.st
            },
        )
    }
}

/// The step from the start of a token.
pub open spec fn token_step(text: Seq<char>, st: ScanState) -> Result<ScanState, Failure> {
    let block = st.flow_depth == 0;
    if block && reader::char_at(text, st.pos) == Some('%') && reader::position_at(
        text,
        st.pos,
    ).column == 1 {
        directive_step(text, st)
    } else if block && st.tab_in_indent && st.pos < text.len() {
        Err(failed(text, st.pos, "tabs cannot be used for indentation"@, st))
    } else {
        let level = unrolled(text, st, lex::indent_at(text, st.pos));
        if st.pos < text.len() {
            match content(text, key_marked(text, level)) {
                Err(f) => Err(f),
                Ok(p) => token_added(text, st.pos, p),
            }
        } else {
            end_step(text, level)
        }
    }
}

/// One step: usually one more token, with the block tokens around it.
pub open spec fn fetch(text: Seq<char>, limits: Limits, st: ScanState) -> Result<
    ScanState,
    Failure,
> {
    if !st.started {
        start(text, limits, st)
    } else {
        match after_gap(text, st) {
            Err(f) => Err(f),
            Ok(next) => token_step(text, next),
        }
    }
}

// ---------------------------------------------------------------------------
// Progress
// ---------------------------------------------------------------------------

/// Past a gap there is a token or the end of the input.
pub proof fn lemma_gap(text: Seq<char>, block: bool, g: Gap)
    requires
        0 <= g.pos <= text.len(),
    ensures
        skip_gap(text, block, g) matches Ok(after) ==> {
            &&& g.pos <= after.pos <= text.len()
            &&& after.pos < text.len() ==> !text::is_break(text[after.pos]) && !text::is_blank(
                text[after.pos],
            ) && text[after.pos] != '#'
        },
    decreases text.len() - g.pos,
{
    match reader::char_at(text, g.pos) {
        Some(c) => {
            if c == ' ' {
                lemma_gap(text, block, Gap { pos: g.pos + 1, separated: true, ..g });
            } else if c == '\t' {
                let tab_in_indent = g.tab_in_indent || block && g.at_line_start;
                lemma_gap(text, block, Gap { pos: g.pos + 1, separated: true, tab_in_indent, ..g });
            } else if text::is_break(c) {
                lemma_gap(
                    text,
                    block,
                    Gap {
                        pos: g.pos + 1,
                        separated: true,
                        key_allowed: g.key_allowed || block,
                        at_line_start: true,
                        tab_in_indent: false,
                    },
                );
            } else if c == '#' {
                lex::lemma_run_end(Run::Line, text, g.pos);
                lex::lemma_run_end(Run::Line, text, g.pos + 1);
                lemma_gap(text, block, Gap { pos: lex::run_end(Run::Line, text, g.pos), ..g });
            }
        },
        None => {},
    }
}

/// Past a gap the state is inside the text, at a token or at its end.
pub proof fn lemma_after_gap(text: Seq<char>, st: ScanState)
    requires
        0 <= st.pos <= text.len(),
    ensures
        after_gap(text, st) matches Ok(next) ==> {
            &&& st.pos <= next.pos <= text.len()
            &&& next.ended == st.ended
            &&& next.pos < text.len() ==> !text::is_break(text[next.pos]) && !text::is_blank(
                text[next.pos],
            )
        },
{
    let before = Gap {
        pos: st.pos,
        separated: reader::position_at(text, st.pos).column == 1,
        key_allowed: st.key_allowed,
        at_line_start: st.at_line_start,
        tab_in_indent: st.tab_in_indent,
    };
    lemma_gap(text, st.flow_depth == 0, before);
}

/// Closing block collections changes the indentation and adds tokens.
pub proof fn lemma_unrolled(text: Seq<char>, st: ScanState, col: int)
    ensures
        unrolled(text, st, col) == (ScanState {
            out: unrolled(text, st, col).out,
            indent: unrolled(text, st, col).indent,
            indents: unrolled(text, st, col).indents,
            ..st
        }),
        unrolled(text, st, col).out.len() >= st.out.len(),
    decreases st.indents.len() + if st.indent > -1 { 1int } else { 0 },
{
    if st.flow_depth == 0 && st.indent > col && col >= -1 {
        let popped = if st.indents.len() == 0 {
            ScanState { indent: -1, ..st }
        } else {
            ScanState { indent: st.indents.last(), indents: st.indents.drop_last(), ..st }
        };
        lemma_unrolled(
            text,
            ScanState { out: st.out.push(tok(text, Lexeme::BlockEnd, st.pos, st.pos)), ..popped },
            col,
        );
    }
}

/// A step from `st` to `next` consumes text and leaves the stream open.
pub open spec fn consumes(text: Seq<char>, st: ScanState, next: ScanState) -> bool {
    &&& st.pos < next.pos <= text.len()
    &&& next.started == st.started
    &&& next.ended == st.ended
}

/// An introduced node ends inside the text, past its first character.
pub proof fn lemma_introduced(
    text: Seq<char>,
    i: int,
    handles: Map<Seq<char>, Seq<char>>,
    indent: int,
)
    requires
        0 <= i < text.len(),
    ensures
        introduced(text, i, handles, indent) matches Ok(r) ==> i < r.1 <= text.len(),
{
    let c = text[i];
    if c == '\'' || c == '"' {
        quoted::lemma_quoted_end(text, i, i + 1, Seq::empty());
    } else if c == '&' || c == '*' {
        lex::lemma_run_end(Run::Name, text, i + 1);
    } else if c == '!' {
        properties::lemma_tag(text, i, handles);
    } else {
        block_scalar::lemma_block_scalar(text, i, i + 1, c == '|', indent);
    }
}

/// A node consumes at least one character.
pub proof fn lemma_node(text: Seq<char>, st: ScanState)
    requires
        0 <= st.pos < text.len(),
        !plain::plain_stop(text, st.pos),
    ensures
        node(text, st) matches Ok(p) ==> consumes(text, st, p.st),
{
    lemma_introduced(text, st.pos, st.handles, st.indent);
    plain::lemma_plain_progress(text, st.pos, st.flow_depth > 0, st.indent);
}

/// A marker consumes its three characters.
proof fn lemma_marker(text: Seq<char>, st: ScanState)
    requires
        0 <= st.pos,
        st.pos + 3 <= text.len(),
    ensures
        consumes(text, st, document_start(text, st).st),
        document_end(text, st) matches Ok(p) ==> consumes(text, st, p.st),
{
    lemma_unrolled(text, st, -1);
}

/// A block indicator consumes its character.
proof fn lemma_block_indicator(text: Seq<char>, st: ScanState)
    requires
        0 <= st.pos < text.len(),
    ensures
        consumes(text, st, block_value(text, st).st),
        consumes(text, st, block_key(text, st).st),
{
}

/// A content token consumes at least one character.
pub proof fn lemma_content(text: Seq<char>, st: ScanState)
    requires
        0 <= st.pos < text.len(),
        !text::is_break(text[st.pos]),
        !text::is_blank(text[st.pos]),
    ensures
        content(text, st) matches Ok(p) ==> consumes(text, st, p.st),
{
    let i = st.pos;
    let c = text[i];
    if lex::marker_at(text, i, '-') || lex::marker_at(text, i, '.') {
        lemma_marker(text, st);
    } else if text::is_flow_indicator(c) || c == ':' && st.flow_depth > 0 {
        assert(content(text, st) matches Ok(p) ==> p.st.pos == i + 1);
    } else if lex::value_indicator_at(text, i) || c == '?' && lex::terminator_at(text, i + 1) {
        lemma_block_indicator(text, st);
    } else {
        assert(!plain::plain_stop(text, i));
        lemma_node(text, st);
    }
}

/// What is left to do before the stream ends.
pub open spec fn remaining(text: Seq<char>, st: ScanState) -> int {
    text.len() - st.pos + (if st.started {
        0int
    } else {
        1
    }) + (if st.ended {
        0int
    } else {
        1
    })
}

/// The state lies inside the text.
pub open spec fn inside(text: Seq<char>, st: ScanState) -> bool {
    0 <= st.pos <= text.len()
}

/// Every step makes progress.
pub proof fn lemma_fetch(text: Seq<char>, limits: Limits, st: ScanState)
    requires
        inside(text, st),
        !st.ended,
    ensures
        fetch(text, limits, st) matches Ok(next) ==> {
            &&& inside(text, next)
            &&& st.pos <= next.pos
            &&& remaining(text, next) < remaining(text, st)
        },
{
    if st.started {
        lemma_after_gap(text, st);
        if let Ok(next) = after_gap(text, st) {
            let handles = if next.needs_reset {
                properties::default_handles()
            } else {
                next.handles
            };
            let col = lex::indent_at(text, next.pos);
            let level = unrolled(text, next, col);
            lemma_unrolled(text, next, col);
            if next.pos < text.len() {
                properties::lemma_directive(text, next.pos, handles, next.yaml_seen);
                lemma_content(text, key_marked(text, level));
            } else {
                lemma_unrolled(text, ScanState { key: None, ..level }, -1);
            }
        }
    }
}

/// A stream that has started stays so.
pub proof fn lemma_started(text: Seq<char>, limits: Limits, st: ScanState)
    requires
        inside(text, st),
        st.started,
        !st.ended,
    ensures
        fetch(text, limits, st) matches Ok(next) ==> next.started,
{
    lemma_after_gap(text, st);
    if let Ok(next) = after_gap(text, st) {
        let col = lex::indent_at(text, next.pos);
        let level = unrolled(text, next, col);
        lemma_unrolled(text, next, col);
        if next.pos < text.len() {
            lemma_content(text, key_marked(text, level));
        } else {
            lemma_unrolled(text, ScanState { key: None, ..level }, -1);
        }
    }
}

// ---------------------------------------------------------------------------
// Whole runs
// ---------------------------------------------------------------------------

/// The state when the stream has ended, or the failure that stops the scan.
pub open spec fn run(text: Seq<char>, limits: Limits, st: ScanState) -> Result<ScanState, Failure>
    decreases remaining(text, st),
{
    if st.ended || !inside(text, st) {
        Ok(st)
    } else {
        proof {
            lemma_fetch(text, limits, st);
        }
        match fetch(text, limits, st) {
            Err(f) => Err(f),
            Ok(next) => run(text, limits, next),
        }
    }
}

/// The tokens of a text, or the fault that stops the scan.
pub open spec fn tokens(text: Seq<char>, limits: Limits) -> Result<Seq<Tok>, Fault> {
    match run(text, limits, initial_state()) {
        Ok(st) => Ok(st.out),
        Err(f) => Err(f.fault),
    }
}

/// The first `n` tokens are out, and the next may be handed out too: no key mark
/// can still put tokens before it.
pub open spec fn ready(st: ScanState, n: int) -> bool {
    st.out.len() > n && st.key is None
}

/// The state in which the token after the first `n` may be handed out, or in
/// which the stream has ended.
pub open spec fn settled(text: Seq<char>, limits: Limits, st: ScanState, n: int) -> Result<
    ScanState,
    Failure,
>
    decreases remaining(text, st),
{
    if ready(st, n) || st.ended || !inside(text, st) {
        Ok(st)
    } else {
        proof {
            lemma_fetch(text, limits, st);
        }
        match fetch(text, limits, st) {
            Err(f) => Err(f),
            Ok(next) => settled(text, limits, next, n),
        }
    }
}

/// Handing tokens out one by one is part of the whole run.
pub proof fn lemma_settled(text: Seq<char>, limits: Limits, st: ScanState, n: int)
    ensures
        match settled(text, limits, st, n) {
            Ok(next) => {
                &&& run(text, limits, next) == run(text, limits, st)
                &&& inside(text, st) ==> inside(text, next)
                &&& next == st || remaining(text, next) < remaining(text, st)
            },
            Err(f) => run(text, limits, st) == Err::<ScanState, Failure>(f),
        },
    decreases remaining(text, st),
{
    if !(ready(st, n) || st.ended || !inside(text, st)) {
        lemma_fetch(text, limits, st);
        if let Ok(next) = fetch(text, limits, st) {
            lemma_settled(text, limits, next, n);
        }
    }
}

} // verus!
