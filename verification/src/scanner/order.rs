//! Tokens come in the order of the text.

use crate::options::Limits;
use crate::scanner::lex;
use crate::scanner::model;
use crate::scanner::model::{KeyMark, Produced, ScanState};
use crate::scanner::plain;
use crate::scanner::properties;
use crate::scanner::reader;
use crate::scanner::token::{Lexeme, Tok};
use crate::text;
use vstd::prelude::*;

verus! {

/// The text fits in memory, so that its offsets are machine numbers.
pub open spec fn is_measurable(text: Seq<char>) -> bool {
    reader::byte_offset(text, text.len() as int) <= usize::MAX
}

/// The token lies in the text.
pub open spec fn is_inside(text: Seq<char>, t: Tok) -> bool {
    t.span.start.offset <= t.span.end.offset <= reader::byte_offset(text, text.len() as int)
}

/// The tokens lie in the text, and each begins no earlier than those before it end.
pub open spec fn is_ordered(text: Seq<char>, ts: Seq<Tok>) -> bool {
    &&& forall|i: int| 0 <= i < ts.len() ==> is_inside(text, #[trigger] ts[i])
    &&& forall|i: int, j: int|
        0 <= i < j < ts.len() ==> (#[trigger] ts[i]).span.end.offset <= (
        #[trigger] ts[j]).span.start.offset
}

/// No token of `ts` before place `n` ends behind `at`, and none from `n` on begins
/// before it.
pub open spec fn splits(text: Seq<char>, ts: Seq<Tok>, n: int, at: int) -> bool {
    &&& 0 <= n <= ts.len()
    &&& forall|i: int|
        0 <= i < n ==> (#[trigger] ts[i]).span.end.offset <= reader::byte_offset(text, at)
    &&& forall|i: int|
        n <= i < ts.len() ==> (#[trigger] ts[i]).span.start.offset >= reader::byte_offset(text, at)
}

/// The tokens so far are in order and end before the current place; a marked
/// key stands where its tokens would go.
pub open spec fn is_in_order(text: Seq<char>, st: ScanState) -> bool {
    &&& 0 <= st.pos <= text.len()
    &&& is_ordered(text, st.out)
    &&& splits(text, st.out, st.out.len() as int, st.pos)
    &&& st.key matches Some(k) ==> 0 <= k.at <= st.pos && splits(text, st.out, k.number, k.at)
}

/// A token that covers part of the text lies in it.
proof fn lemma_tok(text: Seq<char>, kind: Lexeme, i: int, j: int)
    requires
        is_measurable(text),
        0 <= i <= j <= text.len(),
    ensures
        is_inside(text, model::tok(text, kind, i, j)),
        model::tok(text, kind, i, j).span.start.offset == reader::byte_offset(text, i),
        model::tok(text, kind, i, j).span.end.offset == reader::byte_offset(text, j),
{
    reader::lemma_offset_monotone(text, i, j);
    reader::lemma_offset_monotone(text, j, text.len() as int);
}

/// An empty token that goes where its place splits the others keeps them in order.
proof fn lemma_insert_ordered(text: Seq<char>, ts: Seq<Tok>, n: int, at: int, t: Tok)
    requires
        is_ordered(text, ts),
        splits(text, ts, n, at),
        is_inside(text, t),
        t.span.start.offset == reader::byte_offset(text, at),
        t.span.end.offset == reader::byte_offset(text, at),
    ensures
        is_ordered(text, ts.insert(n, t)),
        splits(text, ts.insert(n, t), n, at),
        splits(text, ts.insert(n, t), n + 1, at),
{
    let after = ts.insert(n, t);
    assert forall|i: int| 0 <= i < after.len() implies is_inside(text, #[trigger] after[i]) by {
        if i < n {
            assert(after[i] == ts[i]);
        } else if i > n {
            assert(after[i] == ts[i - 1]);
        }
    }
    assert forall|i: int, j: int| 0 <= i < j < after.len() implies (
    #[trigger] after[i]).span.end.offset <= (#[trigger] after[j]).span.start.offset by {
        if i < n {
            assert(after[i] == ts[i]);
        } else if i > n {
            assert(after[i] == ts[i - 1]);
        }
        if j < n {
            assert(after[j] == ts[j]);
        } else if j > n {
            assert(after[j] == ts[j - 1]);
        }
    }
    assert forall|i: int| 0 <= i < n implies (#[trigger] after[i]).span.end.offset
        <= reader::byte_offset(text, at) by {
        assert(after[i] == ts[i]);
    }
    assert forall|i: int| n < i < after.len() implies (#[trigger] after[i]).span.start.offset
        >= reader::byte_offset(text, at) by {
        assert(after[i] == ts[i - 1]);
    }
}

/// A token that begins at the current place goes behind all others, and the scan goes
/// on behind it.
proof fn lemma_push_ordered(text: Seq<char>, st: ScanState, t: Tok, to: int)
    requires
        is_in_order(text, st),
        is_inside(text, t),
        t.span.start.offset == reader::byte_offset(text, st.pos),
        st.pos <= to <= text.len(),
        t.span.end.offset <= reader::byte_offset(text, to),
    ensures
        is_in_order(text, ScanState { out: st.out.push(t), pos: to, ..st }),
{
    let after = st.out.push(t);
    reader::lemma_offset_monotone(text, st.pos, to);
    assert forall|i: int| 0 <= i < after.len() implies is_inside(text, #[trigger] after[i])
        && after[i].span.end.offset <= reader::byte_offset(text, to) by {
        if i < st.out.len() {
            assert(after[i] == st.out[i]);
        }
    }
    assert forall|i: int, j: int| 0 <= i < j < after.len() implies (
    #[trigger] after[i]).span.end.offset <= (#[trigger] after[j]).span.start.offset by {
        assert(after[i] == st.out[i]);
        if j < st.out.len() {
            assert(after[j] == st.out[j]);
        }
    }
    if let Some(k) = st.key {
        reader::lemma_offset_monotone(text, k.at, st.pos);
        assert forall|i: int| 0 <= i < k.number implies (#[trigger] after[i]).span.end.offset
            <= reader::byte_offset(text, k.at) by {
            assert(after[i] == st.out[i]);
        }
        assert forall|i: int| k.number <= i < after.len() implies (
        #[trigger] after[i]).span.start.offset >= reader::byte_offset(text, k.at) by {
            if i < st.out.len() {
                assert(after[i] == st.out[i]);
            }
        }
    }
}

/// Going on in the text keeps the tokens in order.
proof fn lemma_moved(text: Seq<char>, st: ScanState, next: ScanState)
    requires
        is_in_order(text, st),
        st.pos <= next.pos <= text.len(),
        next.out == st.out,
        next.key == st.key || next.key is None,
    ensures
        is_in_order(text, next),
{
    reader::lemma_offset_monotone(text, st.pos, next.pos);
    assert forall|i: int| 0 <= i < next.out.len() implies (
    #[trigger] next.out[i]).span.end.offset <= reader::byte_offset(text, next.pos) by {
        assert(st.out[i].span.end.offset <= reader::byte_offset(text, st.pos));
    }
}

proof fn lemma_unrolled_order(text: Seq<char>, st: ScanState, col: int)
    requires
        is_measurable(text),
        is_in_order(text, st),
    ensures
        is_in_order(text, model::unrolled(text, st, col)),
    decreases st.indents.len() + if st.indent > -1 { 1int } else { 0 },
{
    if st.flow_depth == 0 && st.indent > col && col >= -1 {
        let popped = if st.indents.len() == 0 {
            ScanState { indent: -1, ..st }
        } else {
            ScanState { indent: st.indents.last(), indents: st.indents.drop_last(), ..st }
        };
        let end = model::tok(text, Lexeme::BlockEnd, st.pos, st.pos);
        lemma_tok(text, Lexeme::BlockEnd, st.pos, st.pos);
        lemma_push_ordered(text, popped, end, st.pos);
        lemma_unrolled_order(text, ScanState { out: st.out.push(end), ..popped }, col);
    }
}

/// A block collection that opens at the current place goes behind all others.
proof fn lemma_rolled_order(text: Seq<char>, st: ScanState, col: int, kind: Lexeme)
    requires
        is_measurable(text),
        is_in_order(text, st),
    ensures
        is_in_order(text, model::rolled(text, st, col, kind, st.pos, st.out.len() as int)),
{
    let n = st.out.len() as int;
    let t = model::tok(text, kind, st.pos, st.pos);
    lemma_tok(text, kind, st.pos, st.pos);
    lemma_push_ordered(text, st, t, st.pos);
    assert(st.out.insert(n, t) == st.out.push(t));
}

/// The tokens of a confirmed key go where the key stands.
proof fn lemma_key_order(text: Seq<char>, st: ScanState, k: KeyMark)
    requires
        is_measurable(text),
        is_in_order(text, st),
        st.key == Some(k),
    ensures
        is_in_order(text, model::key_confirmed(text, st, k)),
{
    let col = lex::indent_at(text, k.at);
    let open = model::rolled(text, st, col, Lexeme::BlockMappingStart, k.at, k.number);
    let start = model::tok(text, Lexeme::BlockMappingStart, k.at, k.at);
    let key = model::tok(text, Lexeme::Key, k.at, k.at);
    let number = k.number + open.out.len() - st.out.len();
    lemma_tok(text, Lexeme::BlockMappingStart, k.at, k.at);
    lemma_tok(text, Lexeme::Key, k.at, k.at);
    reader::lemma_offset_monotone(text, k.at, st.pos);
    lemma_insert_ordered(text, st.out, k.number, k.at, start);
    lemma_insert_ordered(text, open.out, number, k.at, key);
    let after = model::key_confirmed(text, st, k).out;
    assert forall|i: int| 0 <= i < after.len() implies (#[trigger] after[i]).span.end.offset
        <= reader::byte_offset(text, st.pos) by {
        if i < number {
            assert(after[i] == open.out[i]);
        } else if i > number {
            assert(after[i] == open.out[i - 1]);
        }
        if open.out.len() > st.out.len() {
            assert forall|j: int| 0 <= j < open.out.len() implies (
            #[trigger] open.out[j]).span.end.offset <= reader::byte_offset(text, st.pos) by {
                if j < k.number {
                    assert(open.out[j] == st.out[j]);
                } else if j > k.number {
                    assert(open.out[j] == st.out[j - 1]);
                }
            }
        }
    }
}

/// A produced token begins where the scan was, and the state goes on behind its end.
pub open spec fn is_product_in_order(text: Seq<char>, at: int, p: Produced) -> bool {
    &&& is_in_order(text, p.st)
    &&& is_in_order(text, ScanState { pos: at, ..p.st })
    &&& is_inside(text, p.tok)
    &&& p.tok.span.start.offset == reader::byte_offset(text, at)
    &&& p.tok.span.end.offset <= reader::byte_offset(text, p.st.pos)
}

/// A token that covers `n` characters.
proof fn lemma_indicator_order(text: Seq<char>, st: ScanState, kind: Lexeme, n: int)
    requires
        is_measurable(text),
        is_in_order(text, st),
        0 <= n,
        st.pos + n <= text.len(),
    ensures
        is_product_in_order(text, st.pos, model::indicator(text, st, kind, n)),
{
    let p = model::indicator(text, st, kind, n);
    lemma_tok(text, kind, st.pos, st.pos + n);
    lemma_moved(text, st, p.st);
    lemma_moved(text, st, ScanState { pos: st.pos, ..p.st });
}

proof fn lemma_trimmed_length(s: Seq<char>)
    ensures
        text::trim_blanks(s).len() <= s.len(),
    decreases s.len(),
{
    if s.len() > 0 && text::is_blank(s.last()) {
        lemma_trimmed_length(s.drop_last());
    }
}

/// The content of a plain scalar ends before the scan stops.
proof fn lemma_content_end(text: Seq<char>, i: int, flow: bool, indent: int)
    requires
        0 <= i <= text.len(),
    ensures
        i <= plain::plain_scalar(text, i, flow, indent).content_end <= plain::plain_scalar(
            text,
            i,
            flow,
            indent,
        ).end <= text.len(),
    decreases text.len() - i,
{
    let q = plain::plain_line_end(text, i);
    plain::lemma_plain_line_end(text, i);
    lemma_trimmed_length(text.subrange(i, q));
    if lex::break_at(text, q) {
        let next = lex::blank_lines(text, lex::after_break(text, q));
        lex::lemma_blank_lines(text, lex::after_break(text, q));
        if plain::continues_plain(text, next.0, flow, indent) && !plain::plain_stop(text, next.0) {
            lemma_content_end(text, next.0, flow, indent);
        }
    }
}

proof fn lemma_node_order(text: Seq<char>, st: ScanState)
    requires
        is_measurable(text),
        is_in_order(text, st),
        st.pos < text.len(),
    ensures
        model::node(text, st) matches Ok(p) ==> is_product_in_order(text, st.pos, p),
{
    let i = st.pos;
    let block = st.flow_depth == 0;
    if model::introduces_node(text[i], block) {
        model::lemma_introduced(text, i, st.handles, st.indent);
        if let Ok((kind, end)) = model::introduced(text, i, st.handles, st.indent) {
            lemma_tok(text, kind, i, end);
            lemma_moved(text, st, ScanState { pos: end, ..st });
        }
    } else if text[i] == '-' && block && lex::separator_at(text, i + 1) {
        let col = lex::indent_at(text, i);
        lemma_rolled_order(text, st, col, Lexeme::BlockSequenceStart);
        let number = st.out.len() as int;
        let open = model::rolled(text, st, col, Lexeme::BlockSequenceStart, i, number);
        lemma_indicator_order(text, open, Lexeme::BlockEntry, 1);
    } else {
        let scalar = plain::plain_scalar(text, i, st.flow_depth > 0, st.indent);
        lemma_content_end(text, i, st.flow_depth > 0, st.indent);
        let kind = model::plain_token(text, st).tok.kind;
        lemma_tok(text, kind, i, scalar.content_end);
        reader::lemma_offset_monotone(text, scalar.content_end, scalar.end);
        lemma_moved(text, st, ScanState { pos: scalar.end, ..st });
    }
}

proof fn lemma_markers_order(text: Seq<char>, st: ScanState)
    requires
        is_measurable(text),
        is_in_order(text, st),
        st.pos + 3 <= text.len(),
    ensures
        is_product_in_order(text, st.pos, model::document_start(text, st)),
        model::document_end(text, st) matches Ok(p) ==> is_product_in_order(text, st.pos, p),
{
    let closed = model::unrolled(text, st, -1);
    lemma_unrolled_order(text, st, -1);
    model::lemma_unrolled(text, st, -1);
    let started = ScanState { pos: st.pos, ..model::document_start(text, st).st };
    lemma_moved(text, closed, started);
    lemma_indicator_order(text, started, Lexeme::DocumentStart, 3);
    if let Ok(p) = model::document_end(text, st) {
        let ended = ScanState { pos: st.pos, ..p.st };
        lemma_moved(text, closed, ended);
        lemma_indicator_order(text, ended, Lexeme::DocumentEnd, 3);
    }
}

proof fn lemma_block_order(text: Seq<char>, st: ScanState)
    requires
        is_measurable(text),
        is_in_order(text, st),
        st.pos < text.len(),
    ensures
        is_product_in_order(text, st.pos, model::block_value(text, st)),
        is_product_in_order(text, st.pos, model::block_key(text, st)),
{
    let col = lex::indent_at(text, st.pos);
    let number = st.out.len() as int;
    let open = model::rolled(text, st, col, Lexeme::BlockMappingStart, st.pos, number);
    lemma_rolled_order(text, st, col, Lexeme::BlockMappingStart);
    let keyed = ScanState { key: None, key_allowed: false, ..open };
    lemma_moved(text, open, keyed);
    lemma_indicator_order(text, keyed, Lexeme::Key, 1);
    match st.key {
        Some(k) => {
            lemma_key_order(text, st, k);
            lemma_indicator_order(text, model::key_confirmed(text, st, k), Lexeme::Value, 1);
        },
        None => {
            let allowed = ScanState { key_allowed: true, ..open };
            lemma_moved(text, open, allowed);
            lemma_indicator_order(text, allowed, Lexeme::Value, 1);
        },
    }
}

proof fn lemma_content_order(text: Seq<char>, st: ScanState)
    requires
        is_measurable(text),
        is_in_order(text, st),
        st.pos < text.len(),
    ensures
        model::content(text, st) matches Ok(p) ==> is_product_in_order(text, st.pos, p),
{
    let i = st.pos;
    let c = text[i];
    if lex::marker_at(text, i, '-') || lex::marker_at(text, i, '.') {
        lemma_markers_order(text, st);
    } else if c == '[' || c == '{' {
        lemma_moved(text, st, model::flow_opened(st));
        lemma_indicator_order(text, model::flow_opened(st), Lexeme::FlowSequenceStart, 1);
        lemma_indicator_order(text, model::flow_opened(st), Lexeme::FlowMappingStart, 1);
    } else if c == ']' || c == '}' {
        lemma_moved(text, st, model::flow_closed(st));
        lemma_indicator_order(text, model::flow_closed(st), Lexeme::FlowSequenceEnd, 1);
        lemma_indicator_order(text, model::flow_closed(st), Lexeme::FlowMappingEnd, 1);
    } else {
        lemma_indicator_order(text, st, Lexeme::FlowEntry, 1);
        lemma_indicator_order(text, st, Lexeme::Value, 1);
        lemma_indicator_order(text, st, Lexeme::Key, 1);
        lemma_block_order(text, st);
        lemma_node_order(text, st);
    }
}

/// Adding a produced token keeps the tokens in order.
proof fn lemma_added_order(text: Seq<char>, at: int, p: Produced)
    requires
        is_product_in_order(text, at, p),
        at <= p.st.pos,
    ensures
        model::token_added(text, at, p) matches Ok(next) ==> is_in_order(text, next),
{
    let before = ScanState { pos: at, ..p.st };
    lemma_push_ordered(text, before, p.tok, p.st.pos);
    if let Ok(next) = model::token_added(text, at, p) {
        lemma_moved(
            text,
            ScanState { out: before.out.push(p.tok), pos: p.st.pos, ..before },
            next,
        );
    }
}

/// The step from the start of a token keeps the tokens in order.
proof fn lemma_token_order(text: Seq<char>, st: ScanState)
    requires
        is_measurable(text),
        is_in_order(text, st),
        st.pos < text.len() ==> !text::is_break(text[st.pos]) && !text::is_blank(text[st.pos]),
    ensures
        model::token_step(text, st) matches Ok(next) ==> is_in_order(text, next),
{
    let handles = if st.needs_reset {
        properties::default_handles()
    } else {
        st.handles
    };
    if st.pos < text.len() {
        properties::lemma_directive(text, st.pos, handles, st.yaml_seen);
    }
    if let Ok(next) = model::directive_step(text, st) {
        if st.pos < text.len() {
            lemma_moved(text, st, next);
        }
    }
    let col = lex::indent_at(text, st.pos);
    let level = model::unrolled(text, st, col);
    lemma_unrolled_order(text, st, col);
    model::lemma_unrolled(text, st, col);
    if st.pos < text.len() {
        let marked = model::key_marked(text, level);
        assert(is_in_order(text, marked));
        lemma_content_order(text, marked);
        model::lemma_content(text, marked);
        if let Ok(p) = model::content(text, marked) {
            lemma_added_order(text, st.pos, p);
        }
    } else {
        let bare = ScanState { key: None, ..level };
        lemma_moved(text, level, bare);
        lemma_unrolled_order(text, bare, -1);
        model::lemma_unrolled(text, bare, -1);
        let closed = model::unrolled(text, bare, -1);
        let end = model::tok(text, Lexeme::StreamEnd, st.pos, st.pos);
        lemma_tok(text, Lexeme::StreamEnd, st.pos, st.pos);
        lemma_push_ordered(text, closed, end, st.pos);
        if let Ok(next) = model::end_step(text, level) {
            lemma_moved(text, ScanState { out: closed.out.push(end), ..closed }, next);
        }
    }
}

proof fn lemma_run_order(text: Seq<char>, limits: Limits, st: ScanState)
    requires
        is_measurable(text),
        is_in_order(text, st),
    ensures
        model::run(text, limits, st) matches Ok(last) ==> is_ordered(text, last.out),
    decreases model::remaining(text, st),
{
    if !st.ended {
        model::lemma_fetch(text, limits, st);
        if let Ok(next) = model::fetch(text, limits, st) {
            if !st.started {
                let t = model::tok(text, Lexeme::StreamStart, st.pos, st.pos);
                lemma_tok(text, Lexeme::StreamStart, st.pos, st.pos);
                lemma_push_ordered(text, st, t, st.pos);
                lemma_moved(text, ScanState { out: st.out.push(t), ..st }, next);
            } else if let Ok(past) = model::after_gap(text, st) {
                model::lemma_after_gap(text, st);
                lemma_moved(text, st, past);
                lemma_token_order(text, past);
            }
            lemma_run_order(text, limits, next);
        }
    }
}

/// The tokens of a text lie in it and come in its order: each begins no earlier
/// than those before it end, ends no earlier than it begins, and ends inside the
/// text.
pub proof fn law_tokens_are_in_order(text: Seq<char>, limits: Limits)
    requires
        is_measurable(text),
    ensures
        model::tokens(text, limits) matches Ok(ts) ==> is_ordered(text, ts),
{
    lemma_run_order(text, limits, model::initial_state());
}

} // verus!
