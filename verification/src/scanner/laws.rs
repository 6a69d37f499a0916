//! What holds of every scan.

use crate::error::{ErrorKind, Fault};
use crate::options::Limits;
use crate::scanner::lex;
use crate::scanner::lex::Run;
use crate::scanner::model;
use crate::scanner::model::{Gap, Produced, ScanState};
use crate::scanner::quoted;
use crate::scanner::reader;
use crate::scanner::token::{Lexeme, Tok};
use crate::text;
use vstd::prelude::*;

verus! {

// ---------------------------------------------------------------------------
// Block tokens
// ---------------------------------------------------------------------------

/// What a token adds to the number of open block collections.
pub open spec fn weight(kind: Lexeme) -> int {
    match kind {
        Lexeme::BlockSequenceStart => 1,
        Lexeme::BlockMappingStart => 1,
        Lexeme::BlockEnd => -1,
        _ => 0,
    }
}

/// How many more block collections the tokens open than they close.
pub open spec fn balance(ts: Seq<Tok>) -> int
    decreases ts.len(),
{
    if ts.len() == 0 {
        0
    } else {
        balance(ts.drop_last()) + weight(ts.last().kind)
    }
}

proof fn lemma_push(ts: Seq<Tok>, t: Tok)
    ensures
        balance(ts.push(t)) == balance(ts) + weight(t.kind),
{
    assert(ts.push(t).drop_last() == ts);
}

proof fn lemma_insert(ts: Seq<Tok>, i: int, t: Tok)
    requires
        0 <= i <= ts.len(),
    ensures
        balance(ts.insert(i, t)) == balance(ts) + weight(t.kind),
    decreases ts.len(),
{
    if i == ts.len() {
        assert(ts.insert(i, t) == ts.push(t));
        lemma_push(ts, t);
    } else {
        lemma_insert(ts.drop_last(), i, t);
        assert(ts.insert(i, t).drop_last() == ts.drop_last().insert(i, t));
        assert(ts.insert(i, t).last() == ts.last());
    }
}

// ---------------------------------------------------------------------------
// States
// ---------------------------------------------------------------------------

/// A token that frames the stream.
pub open spec fn is_frame(kind: Lexeme) -> bool {
    kind is StreamStart || kind is StreamEnd
}

/// The stream starts with its start token, and no token after it frames it.
pub open spec fn is_begun(ts: Seq<Tok>) -> bool {
    &&& ts.len() > 0
    &&& ts[0].kind is StreamStart
    &&& forall|i: int| 0 < i < ts.len() ==> !is_frame((#[trigger] ts[i]).kind)
}

/// The tokens between the start and the end of the stream.
pub open spec fn is_framed(ts: Seq<Tok>) -> bool {
    &&& ts.len() > 1
    &&& is_begun(ts.drop_last())
    &&& ts.last().kind is StreamEnd
}

/// The columns of the open block collections grow from the outside in.
pub open spec fn is_nested(st: ScanState) -> bool {
    let columns = st.indents.push(st.indent);
    &&& columns[0] == -1
    &&& forall|i: int, j: int| 0 <= i < j < columns.len() ==> columns[i] < columns[j]
}

/// The tokens up to any place close no block collection that they have not opened.
pub open spec fn never_closes_more(ts: Seq<Tok>) -> bool {
    forall|m: int| 0 <= m <= ts.len() ==> #[trigger] balance(ts.take(m)) >= 0
}

/// A token behind all others closes at most what is open.
proof fn lemma_push_closes(ts: Seq<Tok>, t: Tok)
    requires
        never_closes_more(ts),
        balance(ts) + weight(t.kind) >= 0,
    ensures
        never_closes_more(ts.push(t)),
{
    lemma_push(ts, t);
    assert forall|m: int| 0 <= m <= ts.len() + 1 implies #[trigger] balance(ts.push(t).take(m))
        >= 0 by {
        if m <= ts.len() {
            assert(ts.push(t).take(m) == ts.take(m));
        } else {
            assert(ts.push(t).take(m) == ts.push(t));
        }
    }
}

/// A token that closes nothing may go anywhere.
proof fn lemma_insert_closes(ts: Seq<Tok>, i: int, t: Tok)
    requires
        never_closes_more(ts),
        0 <= i <= ts.len(),
        weight(t.kind) >= 0,
    ensures
        never_closes_more(ts.insert(i, t)),
{
    let after = ts.insert(i, t);
    assert forall|m: int| 0 <= m <= after.len() implies #[trigger] balance(after.take(m)) >= 0 by {
        if m <= i {
            assert(after.take(m) == ts.take(m));
        } else {
            let rest = ts.take(m - 1);
            assert(after.take(m) == rest.insert(i, t));
            lemma_insert(rest, i, t);
            assert(balance(rest) >= 0);
        }
    }
}

/// What holds between any two tokens.
pub open spec fn is_sound(st: ScanState) -> bool {
    &&& if st.started {
        is_begun(st.out)
    } else {
        st.out.len() == 0
    }
    &&& st.key matches Some(k) ==> st.started && 1 <= k.number <= st.out.len()
    &&& is_nested(st)
    &&& balance(st.out) == st.indents.len()
    &&& never_closes_more(st.out)
}

/// Closing block collections keeps a state sound; closing all leaves none.
proof fn lemma_unrolled(text: Seq<char>, st: ScanState, col: int)
    requires
        is_sound(st),
        st.started,
        col >= -1,
    ensures
        is_sound(model::unrolled(text, st, col)),
        st.flow_depth == 0 ==> model::unrolled(text, st, col).indent <= col,
    decreases st.indents.len() + if st.indent > -1 { 1int } else { 0 },
{
    if st.flow_depth == 0 && st.indent > col {
        let columns = st.indents.push(st.indent);
        if st.indents.len() == 0 {
            assert(columns[0] == st.indent);
        }
        let end = model::tok(text, Lexeme::BlockEnd, st.pos, st.pos);
        let next = ScanState {
            out: st.out.push(end),
            indent: st.indents.last(),
            indents: st.indents.drop_last(),
            ..st
        };
        assert(next.indents.push(next.indent) == st.indents);
        assert forall|i: int, j: int| 0 <= i < j < st.indents.len() implies st.indents[i]
            < st.indents[j] by {
            assert(columns[i] < columns[j]);
        }
        assert(columns[0] == st.indents[0]);
        lemma_push(st.out, end);
        lemma_push_closes(st.out, end);
        model::lemma_unrolled(text, st, col);
        lemma_unrolled(text, next, col);
    }
}

/// A token that does not frame the stream keeps it begun, wherever it goes behind
/// the start.
proof fn lemma_begun(ts: Seq<Tok>, i: int, t: Tok)
    requires
        is_begun(ts),
        1 <= i <= ts.len(),
        !is_frame(t.kind),
    ensures
        is_begun(ts.insert(i, t)),
{
    let after = ts.insert(i, t);
    assert(after[0] == ts[0]);
    assert forall|k: int| 0 < k < after.len() implies !is_frame((#[trigger] after[k]).kind) by {
        if k < i {
            assert(after[k] == ts[k]);
        } else if k > i {
            assert(after[k] == ts[k - 1]);
        }
    }
}

/// Opening a block collection keeps a state sound.
proof fn lemma_rolled(
    text: Seq<char>,
    st: ScanState,
    col: int,
    kind: Lexeme,
    mark: int,
    number: int,
)
    requires
        is_sound(ScanState { key: None, ..st }),
        st.started,
        weight(kind) == 1,
        1 <= number <= st.out.len(),
    ensures
        is_sound(ScanState { key: None, ..model::rolled(text, st, col, kind, mark, number) }),
{
    if st.flow_depth == 0 && st.indent < col {
        let t = model::tok(text, kind, mark, mark);
        let next = model::rolled(text, st, col, kind, mark, number);
        lemma_begun(st.out, number, t);
        lemma_insert(st.out, number, t);
        lemma_insert_closes(st.out, number, t);
        let columns = st.indents.push(st.indent);
        let after = next.indents.push(next.indent);
        assert(next.indents == columns);
        assert(after[0] == columns[0]);
        assert forall|i: int, j: int| 0 <= i < j < after.len() implies after[i] < after[j] by {
            assert(after[i] == columns[i]);
            if i < columns.len() - 1 {
                assert(columns[i] < columns[columns.len() - 1]);
            }
            if j < columns.len() {
                assert(after[j] == columns[j]);
            }
        }
    }
}

/// A produced token and the state before it.
pub open spec fn is_sound_product(p: Produced) -> bool {
    is_sound(p.st) && p.st.started && !is_frame(p.tok.kind) && weight(p.tok.kind) == 0
}

/// What a state is sound by does not change where these parts do not.
proof fn lemma_same(st: ScanState, other: ScanState)
    requires
        is_sound(st),
        other.out == st.out,
        other.started == st.started,
        other.indent == st.indent,
        other.indents == st.indents,
        other.key == st.key || other.key is None,
    ensures
        is_sound(other),
{
}

/// `---` and `...` leave a sound state.
proof fn lemma_markers(text: Seq<char>, st: ScanState)
    requires
        is_sound(st),
        st.started,
    ensures
        is_sound_product(model::document_start(text, st)),
        model::document_end(text, st) matches Ok(p) ==> is_sound_product(p),
{
    let closed = model::unrolled(text, st, -1);
    lemma_unrolled(text, st, -1);
    model::lemma_unrolled(text, st, -1);
    lemma_same(closed, model::document_start(text, st).st);
    if let Ok(p) = model::document_end(text, st) {
        lemma_same(closed, p.st);
    }
}

/// `:` outside flow collections leaves a sound state.
#[verifier::rlimit(30)]
#[verifier::spinoff_prover]
proof fn lemma_block_value(text: Seq<char>, st: ScanState)
    requires
        is_sound(st),
        st.started,
    ensures
        is_sound_product(model::block_value(text, st)),
{
    let after = model::block_value(text, st).st;
    let bare = ScanState { key: None, ..st };
    lemma_same(st, bare);
    match st.key {
        Some(k) => {
            let col = lex::indent_at(text, k.at);
            let open = model::rolled(text, st, col, Lexeme::BlockMappingStart, k.at, k.number);
            lemma_rolled(text, st, col, Lexeme::BlockMappingStart, k.at, k.number);
            let number = k.number + open.out.len() - st.out.len();
            let key = model::tok(text, Lexeme::Key, k.at, k.at);
            lemma_begun(open.out, number, key);
            lemma_insert(open.out, number, key);
            lemma_insert_closes(open.out, number, key);
            let keyed = ScanState { key: None, out: open.out.insert(number, key), ..open };
            assert(is_sound(keyed));
            lemma_same(keyed, after);
        },
        None => {
            let col = lex::indent_at(text, st.pos);
            let number = st.out.len() as int;
            let open = model::rolled(text, st, col, Lexeme::BlockMappingStart, st.pos, number);
            lemma_rolled(text, st, col, Lexeme::BlockMappingStart, st.pos, number);
            lemma_same(ScanState { key: None, ..open }, after);
        },
    }
}

/// `?` and `-` outside flow collections leave a sound state.
proof fn lemma_block_starts(text: Seq<char>, st: ScanState)
    requires
        is_sound(st),
        st.started,
    ensures
        is_sound_product(model::block_key(text, st)),
        model::block_entry(text, st) matches Ok(p) ==> is_sound_product(p),
{
    let col = lex::indent_at(text, st.pos);
    let number = st.out.len() as int;
    lemma_same(st, ScanState { key: None, ..st });
    let mapping = model::rolled(text, st, col, Lexeme::BlockMappingStart, st.pos, number);
    lemma_rolled(text, st, col, Lexeme::BlockMappingStart, st.pos, number);
    lemma_same(ScanState { key: None, ..mapping }, model::block_key(text, st).st);
    lemma_rolled(text, st, col, Lexeme::BlockSequenceStart, st.pos, number);
}

/// Every content token leaves a sound state.
#[verifier::rlimit(30)]
#[verifier::spinoff_prover]
proof fn lemma_content(text: Seq<char>, st: ScanState)
    requires
        is_sound(st),
        st.started,
    ensures
        model::content(text, st) matches Ok(p) ==> is_sound_product(p),
{
    let i = st.pos;
    let c = text[i];
    if lex::marker_at(text, i, '-') || lex::marker_at(text, i, '.') {
        lemma_markers(text, st);
    } else if c == '[' || c == ']' || c == '{' || c == '}' || c == ',' || c == ':' && st.flow_depth
        > 0 {
        if let Ok(p) = model::content(text, st) {
            lemma_same(st, p.st);
        }
    } else if lex::value_indicator_at(text, i) {
        lemma_block_value(text, st);
    } else {
        lemma_block_starts(text, st);
        if let Ok(p) = model::content(text, st) {
            if p.tok.kind !is BlockEntry && !(p.tok.kind is Key && st.flow_depth == 0) {
                lemma_same(st, p.st);
            }
        }
    }
}

/// Adding a produced token keeps the state sound.
proof fn lemma_added(text: Seq<char>, at: int, p: Produced)
    requires
        is_sound_product(p),
    ensures
        model::token_added(text, at, p) matches Ok(next) ==> is_sound(next) && next.started,
{
    lemma_begun(p.st.out, p.st.out.len() as int, p.tok);
    assert(p.st.out.insert(p.st.out.len() as int, p.tok) == p.st.out.push(p.tok));
    lemma_push(p.st.out, p.tok);
    lemma_push_closes(p.st.out, p.tok);
}

/// The end of the input frames the stream.
proof fn lemma_end(text: Seq<char>, st: ScanState)
    requires
        is_sound(st),
        st.started,
    ensures
        model::end_step(text, st) matches Ok(next) ==> {
            &&& next.started && next.ended
            &&& is_framed(next.out)
            &&& balance(next.out) == next.indents.len()
            &&& never_closes_more(next.out)
            &&& next.flow_depth == 0 ==> next.indents.len() == 0
        },
{
    let bare = ScanState { key: None, ..st };
    lemma_same(st, bare);
    lemma_unrolled(text, bare, -1);
    model::lemma_unrolled(text, bare, -1);
    let closed = model::unrolled(text, bare, -1);
    let columns = closed.indents.push(closed.indent);
    if st.flow_depth == 0 && closed.indents.len() > 0 {
        assert(columns[0] < columns[columns.len() - 1]);
    }
    if let Ok(next) = model::end_step(text, st) {
        assert(next.out.drop_last() == closed.out);
        lemma_push(closed.out, next.out.last());
        lemma_push_closes(closed.out, next.out.last());
    }
}

/// Nothing read yet.
proof fn lemma_initial()
    ensures
        is_sound(model::initial_state()),
{
}

/// Every step keeps the state sound.
proof fn lemma_fetch(text: Seq<char>, limits: Limits, st: ScanState)
    requires
        is_sound(st),
        model::inside(text, st),
        !st.ended,
    ensures
        model::fetch(text, limits, st) matches Ok(next) ==> {
            &&& next.started
            &&& if next.ended {
                &&& is_framed(next.out)
                &&& balance(next.out) == next.indents.len()
                &&& never_closes_more(next.out)
                &&& next.flow_depth == 0 ==> next.indents.len() == 0
            } else {
                is_sound(next)
            }
        },
{
    if !st.started {
        if let Ok(next) = model::start(text, limits, st) {
            lemma_push(st.out, next.out.last());
            lemma_push_closes(st.out, next.out.last());
            assert(next.out.len() == 1);
        }
    } else if let Ok(next) = model::after_gap(text, st) {
        lemma_same(st, next);
        model::lemma_after_gap(text, st);
        let col = lex::indent_at(text, next.pos);
        let level = model::unrolled(text, next, col);
        lemma_unrolled(text, next, col);
        model::lemma_unrolled(text, next, col);
        if let Ok(after) = model::directive_step(text, next) {
            lemma_same(next, after);
        }
        if next.pos < text.len() {
            let marked = model::key_marked(text, level);
            assert(is_sound(marked));
            lemma_content(text, marked);
            model::lemma_content(text, marked);
            if let Ok(p) = model::content(text, marked) {
                lemma_added(text, next.pos, p);
            }
        } else {
            lemma_end(text, level);
        }
    }
}

/// The run of a sound state ends with a framed stream.
proof fn lemma_run(text: Seq<char>, limits: Limits, st: ScanState)
    requires
        is_sound(st),
        model::inside(text, st),
        !st.ended,
    ensures
        model::run(text, limits, st) matches Ok(last) ==> {
            &&& is_framed(last.out)
            &&& balance(last.out) == last.indents.len()
            &&& never_closes_more(last.out)
            &&& last.flow_depth == 0 ==> last.indents.len() == 0
        },
    decreases model::remaining(text, st),
{
    lemma_fetch(text, limits, st);
    model::lemma_fetch(text, limits, st);
    if let Ok(next) = model::fetch(text, limits, st) {
        if !next.ended {
            lemma_run(text, limits, next);
        }
    }
}

/// The tokens of a text begin with the start of the stream and end with its end,
/// and no token between them is either.
pub proof fn law_tokens_are_framed(text: Seq<char>, limits: Limits)
    ensures
        model::tokens(text, limits) matches Ok(ts) ==> is_framed(ts),
{
    lemma_initial();
    lemma_run(text, limits, model::initial_state());
}

/// Every block collection that a run opens is closed, unless a flow collection is still
/// open at its end; up to any token none is closed that was not opened.
pub proof fn lemma_blocks(text: Seq<char>, limits: Limits)
    ensures
        model::run(text, limits, model::initial_state()) matches Ok(last) ==> {
            &&& never_closes_more(last.out)
            &&& last.flow_depth == 0 ==> balance(last.out) == 0
        },
{
    lemma_initial();
    lemma_run(text, limits, model::initial_state());
}

/// An input over the size limit is rejected before anything else is looked at.
pub proof fn law_large_input_is_rejected(text: Seq<char>, limits: Limits)
    requires
        reader::byte_offset(text, text.len() as int) > limits.max_input_bytes,
    ensures
        model::tokens(text, limits) matches Err(f) && f.kind == ErrorKind::LimitExceeded,
{
}

// ---------------------------------------------------------------------------
// Faults
// ---------------------------------------------------------------------------

/// A fault that a scan can give: it is of the scanner or of a limit, and it says
/// where it is.
pub open spec fn is_scan_fault(f: Fault) -> bool {
    (f.kind == ErrorKind::Scan || f.kind == ErrorKind::LimitExceeded) && f.span is Some
}

proof fn lemma_hex_escape_fault(text: Seq<char>, start: int, i: int, n: nat, code: nat)
    ensures
        quoted::hex_escape(text, start, i, n, code) matches Err(f) ==> is_scan_fault(f.fault),
    decreases n,
{
    if n > 0 {
        if let Some(c) = reader::char_at(text, i) {
            if let Some(d) = text::digit_value(c) {
                lemma_hex_escape_fault(text, start, i + 1, (n - 1) as nat, code * 16 + d);
            }
        }
    }
}

proof fn lemma_escape_fault(text: Seq<char>, start: int, i: int)
    ensures
        quoted::escape(text, start, i) matches Err(f) ==> is_scan_fault(f.fault),
{
    if let Some(c) = reader::char_at(text, i) {
        if let Some(n) = quoted::hex_escape_width(c) {
            lemma_hex_escape_fault(text, start, i + 1, n, 0);
        }
    }
}

proof fn lemma_quoted_fault(text: Seq<char>, start: int, i: int, gathered: Seq<char>)
    ensures
        quoted::single_quoted(text, start, i, gathered) matches Err(f) ==> is_scan_fault(f.fault),
        quoted::double_quoted(text, start, i, gathered) matches Err(f) ==> is_scan_fault(f.fault),
    decreases text.len() - i,
{
    if 0 <= i < text.len() {
        lemma_quoted_fault(text, start, i + 1, gathered.push(text[i]));
        if i + 1 < text.len() {
            lemma_quoted_fault(text, start, i + 2, gathered.push('\''));
        }
        if text::is_break(text[i]) {
            lex::lemma_blank_lines(text, lex::after_break(text, i));
            if let Ok(folded) = quoted::quoted_fold(text, start, i, gathered) {
                lemma_quoted_fault(text, start, folded.1, folded.0);
            }
        }
        if text[i] == '\\' {
            if lex::break_at(text, i + 1) {
                let next = lex::after_break(text, i + 1);
                lex::lemma_run_end(Run::Blanks, text, next);
                let end = lex::run_end(Run::Blanks, text, next);
                lemma_quoted_fault(text, start, end, gathered);
            } else {
                quoted::lemma_escape_end(text, start, i + 1);
                lemma_escape_fault(text, start, i + 1);
                if let Ok(escaped) = quoted::escape(text, start, i + 1) {
                    lemma_quoted_fault(text, start, escaped.1, gathered.push(escaped.0));
                }
            }
        }
    }
}

proof fn lemma_gap_fault(text: Seq<char>, block: bool, g: Gap)
    ensures
        model::skip_gap(text, block, g) matches Err(f) ==> is_scan_fault(f.fault),
    decreases text.len() - g.pos,
{
    if let Some(c) = reader::char_at(text, g.pos) {
        if c == ' ' {
            lemma_gap_fault(text, block, Gap { pos: g.pos + 1, separated: true, ..g });
        } else if c == '\t' {
            let tab_in_indent = g.tab_in_indent || block && g.at_line_start;
            lemma_gap_fault(
                text,
                block,
                Gap { pos: g.pos + 1, separated: true, tab_in_indent, ..g },
            );
        } else if text::is_break(c) {
            lemma_gap_fault(
                text,
                block,
                Gap {
                    pos: g.pos + 1,
                    separated: true,
                    key_allowed: g.key_allowed || block,
                    at_line_start: true,
                    tab_in_indent: false,
                },
            );
        } else if c == '#' {
            lex::lemma_run_end(Run::Line, text, g.pos);
            lex::lemma_run_end(Run::Line, text, g.pos + 1);
            lemma_gap_fault(text, block, Gap { pos: lex::run_end(Run::Line, text, g.pos), ..g });
        }
    }
}

proof fn lemma_content_fault(text: Seq<char>, st: ScanState)
    ensures
        model::content(text, st) matches Err(f) ==> is_scan_fault(f.fault),
{
    lemma_quoted_fault(text, st.pos, st.pos + 1, Seq::empty());
}

proof fn lemma_fetch_fault(text: Seq<char>, limits: Limits, st: ScanState)
    ensures
        model::fetch(text, limits, st) matches Err(f) ==> is_scan_fault(f.fault),
{
    let before = Gap {
        pos: st.pos,
        separated: reader::position_at(text, st.pos).column == 1,
        key_allowed: st.key_allowed,
        at_line_start: st.at_line_start,
        tab_in_indent: st.tab_in_indent,
    };
    lemma_gap_fault(text, st.flow_depth == 0, before);
    if let Ok(next) = model::after_gap(text, st) {
        let level = model::unrolled(text, next, lex::indent_at(text, next.pos));
        lemma_content_fault(text, model::key_marked(text, level));
    }
}

proof fn lemma_run_fault(text: Seq<char>, limits: Limits, st: ScanState)
    ensures
        model::run(text, limits, st) matches Err(f) ==> is_scan_fault(f.fault),
    decreases model::remaining(text, st),
{
    if !(st.ended || !model::inside(text, st)) {
        model::lemma_fetch(text, limits, st);
        lemma_fetch_fault(text, limits, st);
        if let Ok(next) = model::fetch(text, limits, st) {
            lemma_run_fault(text, limits, next);
        }
    }
}

/// Every fault of a scan is of the scanner or of a limit, and says where it is.
pub proof fn law_scan_faults_are_located(text: Seq<char>, limits: Limits)
    ensures
        model::tokens(text, limits) matches Err(f) ==> is_scan_fault(f),
{
    lemma_run_fault(text, limits, model::initial_state());
}

} // verus!
