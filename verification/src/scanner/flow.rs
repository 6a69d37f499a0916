//! Flow collections, counted over the tokens, and what they leave of block collections.

use crate::options::Limits;
use crate::scanner::laws;
use crate::scanner::lex;
use crate::scanner::model;
use crate::scanner::model::{KeyMark, Produced, ScanState};
use crate::scanner::token::{Lexeme, Tok};
use vstd::prelude::*;

verus! {

/// How many flow collections are open after a token where `open` were before it. An end
/// where none is open closes none.
pub open spec fn after_token(open: nat, kind: Lexeme) -> nat {
    match kind {
        Lexeme::FlowSequenceStart => open + 1,
        Lexeme::FlowMappingStart => open + 1,
        Lexeme::FlowSequenceEnd => (if open > 0 { open - 1 } else { 0 }) as nat,
        Lexeme::FlowMappingEnd => (if open > 0 { open - 1 } else { 0 }) as nat,
        _ => open,
    }
}

/// How many flow collections the tokens leave open.
pub open spec fn open_flows(ts: Seq<Tok>) -> nat
    decreases ts.len(),
{
    if ts.len() == 0 {
        0
    } else {
        after_token(open_flows(ts.drop_last()), ts.last().kind)
    }
}

/// A token that neither opens nor closes a flow collection.
pub open spec fn is_neutral(kind: Lexeme) -> bool {
    !(kind is FlowSequenceStart || kind is FlowMappingStart || kind is FlowSequenceEnd
        || kind is FlowMappingEnd)
}

proof fn lemma_push(ts: Seq<Tok>, t: Tok)
    ensures
        open_flows(ts.push(t)) == after_token(open_flows(ts), t.kind),
{
    assert(ts.push(t).drop_last() == ts);
}

proof fn lemma_insert(ts: Seq<Tok>, n: int, t: Tok)
    requires
        0 <= n <= ts.len(),
        is_neutral(t.kind),
    ensures
        open_flows(ts.insert(n, t)) == open_flows(ts),
    decreases ts.len(),
{
    if n == ts.len() {
        assert(ts.insert(n, t) == ts.push(t));
        lemma_push(ts, t);
    } else {
        lemma_insert(ts.drop_last(), n, t);
        assert(ts.insert(n, t).drop_last() == ts.drop_last().insert(n, t));
        assert(ts.insert(n, t).last() == ts.last());
    }
}

/// The scanner's count of open flow collections is that of its tokens.
pub open spec fn is_counted(st: ScanState) -> bool {
    &&& st.flow_depth == open_flows(st.out)
    &&& st.key matches Some(k) ==> 0 <= k.number <= st.out.len()
}

/// The count behind a produced token is that of the tokens with it.
pub open spec fn is_counted_product(p: Produced) -> bool {
    &&& p.st.flow_depth == after_token(open_flows(p.st.out), p.tok.kind)
    &&& p.st.key matches Some(k) ==> 0 <= k.number <= p.st.out.len()
}

proof fn lemma_unrolled(text: Seq<char>, st: ScanState, col: int)
    requires
        is_counted(st),
    ensures
        is_counted(model::unrolled(text, st, col)),
    decreases st.indents.len() + if st.indent > -1 { 1int } else { 0 },
{
    if st.flow_depth == 0 && st.indent > col && col >= -1 {
        let popped = if st.indents.len() == 0 {
            ScanState { indent: -1, ..st }
        } else {
            ScanState { indent: st.indents.last(), indents: st.indents.drop_last(), ..st }
        };
        let end = model::tok(text, Lexeme::BlockEnd, st.pos, st.pos);
        lemma_push(st.out, end);
        lemma_unrolled(text, ScanState { out: st.out.push(end), ..popped }, col);
    }
}

proof fn lemma_rolled(text: Seq<char>, st: ScanState, kind: Lexeme)
    requires
        is_counted(st),
        is_neutral(kind),
    ensures
        is_counted(
            model::rolled(
                text,
                st,
                lex::indent_at(text, st.pos),
                kind,
                st.pos,
                st.out.len() as int,
            ),
        ),
{
    lemma_insert(st.out, st.out.len() as int, model::tok(text, kind, st.pos, st.pos));
}

proof fn lemma_key_confirmed(text: Seq<char>, st: ScanState, k: KeyMark)
    requires
        is_counted(st),
        st.key == Some(k),
    ensures
        is_counted(model::key_confirmed(text, st, k)),
{
    let col = lex::indent_at(text, k.at);
    let open = model::rolled(text, st, col, Lexeme::BlockMappingStart, k.at, k.number);
    let number = k.number + open.out.len() - st.out.len();
    lemma_insert(st.out, k.number, model::tok(text, Lexeme::BlockMappingStart, k.at, k.at));
    lemma_insert(open.out, number, model::tok(text, Lexeme::Key, k.at, k.at));
}

proof fn lemma_markers(text: Seq<char>, st: ScanState)
    requires
        is_counted(st),
    ensures
        is_counted_product(model::document_start(text, st)),
        model::document_end(text, st) matches Ok(p) ==> is_counted_product(p),
{
    lemma_unrolled(text, st, -1);
    model::lemma_unrolled(text, st, -1);
}

proof fn lemma_block_starts(text: Seq<char>, st: ScanState)
    requires
        is_counted(st),
    ensures
        is_counted_product(model::block_value(text, st)),
        is_counted_product(model::block_key(text, st)),
        model::block_entry(text, st) matches Ok(p) ==> is_counted_product(p),
{
    lemma_rolled(text, st, Lexeme::BlockMappingStart);
    lemma_rolled(text, st, Lexeme::BlockSequenceStart);
    if let Some(k) = st.key {
        lemma_key_confirmed(text, st, k);
    }
}

/// What a character introduces is no flow collection.
proof fn lemma_node(text: Seq<char>, st: ScanState)
    requires
        is_counted(st),
    ensures
        model::node(text, st) matches Ok(p) ==> is_counted_product(p),
{
    lemma_block_starts(text, st);
    if let Ok((kind, _)) = model::introduced(text, st.pos, st.handles, st.indent) {
        assert(is_neutral(kind));
    }
}

#[verifier::rlimit(30)]
#[verifier::spinoff_prover]
proof fn lemma_content(text: Seq<char>, st: ScanState)
    requires
        is_counted(st),
    ensures
        model::content(text, st) matches Ok(p) ==> is_counted_product(p),
{
    let i = st.pos;
    let c = text[i];
    if lex::marker_at(text, i, '-') || lex::marker_at(text, i, '.') {
        lemma_markers(text, st);
    } else if c == '[' || c == ']' || c == '{' || c == '}' || c == ',' || c == ':' && st.flow_depth
        > 0 {
    } else if lex::value_indicator_at(text, i) || c == '?' && lex::terminator_at(text, i + 1) {
        lemma_block_starts(text, st);
    } else {
        lemma_node(text, st);
        assert(model::content(text, st) == model::node(text, st));
    }
}

proof fn lemma_fetch(text: Seq<char>, limits: Limits, st: ScanState)
    requires
        is_counted(st),
        model::inside(text, st),
    ensures
        model::fetch(text, limits, st) matches Ok(next) ==> is_counted(next),
{
    if !st.started {
        lemma_push(st.out, model::tok(text, Lexeme::StreamStart, st.pos, st.pos));
    } else if let Ok(next) = model::after_gap(text, st) {
        model::lemma_after_gap(text, st);
        let col = lex::indent_at(text, next.pos);
        let level = model::unrolled(text, next, col);
        lemma_unrolled(text, next, col);
        if next.pos < text.len() {
            let marked = model::key_marked(text, level);
            assert(is_counted(marked));
            lemma_content(text, marked);
            if let Ok(p) = model::content(text, marked) {
                lemma_push(p.st.out, p.tok);
            }
        } else {
            let bare = ScanState { key: None, ..level };
            lemma_unrolled(text, bare, -1);
            let closed = model::unrolled(text, bare, -1);
            lemma_push(closed.out, model::tok(text, Lexeme::StreamEnd, level.pos, level.pos));
        }
    }
}

proof fn lemma_run(text: Seq<char>, limits: Limits, st: ScanState)
    requires
        is_counted(st),
    ensures
        model::run(text, limits, st) matches Ok(last) ==> is_counted(last),
    decreases model::remaining(text, st),
{
    if !(st.ended || !model::inside(text, st)) {
        model::lemma_fetch(text, limits, st);
        lemma_fetch(text, limits, st);
        if let Ok(next) = model::fetch(text, limits, st) {
            lemma_run(text, limits, next);
        }
    }
}

/// Every block collection that the tokens of a text open is closed, unless they leave a
/// flow collection open; up to any token none is closed that was not opened.
pub proof fn law_block_collections_are_closed(text: Seq<char>, limits: Limits)
    ensures
        model::tokens(text, limits) matches Ok(ts) ==> {
            &&& laws::never_closes_more(ts)
            &&& open_flows(ts) == 0 ==> laws::balance(ts) == 0
        },
{
    lemma_run(text, limits, model::initial_state());
    laws::lemma_blocks(text, limits);
}

} // verus!
