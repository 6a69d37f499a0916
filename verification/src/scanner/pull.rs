//! Tokens taken one by one are the tokens of the whole text.

use crate::error::Fault;
use crate::options::Limits;
use crate::scanner::lex;
use crate::scanner::model;
use crate::scanner::model::{Failure, KeyMark, ScanState};
use crate::scanner::token::{Lexeme, Tok};
use vstd::prelude::*;

verus! {

/// The state of a new scanner after it has handed out `n` tokens.
pub open spec fn after_pulls(text: Seq<char>, limits: Limits, n: nat) -> Result<ScanState, Failure>
    decreases n,
{
    if n == 0 {
        Ok(model::initial_state())
    } else {
        match after_pulls(text, limits, (n - 1) as nat) {
            Err(f) => Err(f),
            Ok(st) => model::settled(text, limits, st, n - 1),
        }
    }
}

/// What a scanner that has handed out `n` tokens gives next.
pub open spec fn pulled(text: Seq<char>, limits: Limits, n: nat) -> Result<Option<Tok>, Fault> {
    match after_pulls(text, limits, n + 1) {
        Err(f) => Err(f.fault),
        Ok(st) => if n < st.out.len() {
            Ok(Some(st.out[n as int]))
        } else {
            Ok(None)
        },
    }
}

// ---------------------------------------------------------------------------
// What has been handed out stays
// ---------------------------------------------------------------------------

/// The tokens begin with `head`, and no key mark can still put a token into it.
pub open spec fn begins(st: ScanState, head: Seq<Tok>) -> bool {
    &&& head.len() <= st.out.len()
    &&& st.out.take(head.len() as int) == head
    &&& st.key matches Some(k) ==> head.len() <= k.number <= st.out.len()
    &&& st.ended ==> st.key is None
}

/// A token behind the head leaves it alone.
proof fn lemma_insert(ts: Seq<Tok>, head: Seq<Tok>, n: int, t: Tok)
    requires
        head.len() <= n <= ts.len(),
        ts.take(head.len() as int) == head,
    ensures
        ts.insert(n, t).take(head.len() as int) == head,
{
    assert(ts.insert(n, t).take(head.len() as int) == ts.take(head.len() as int));
}

proof fn lemma_push(ts: Seq<Tok>, head: Seq<Tok>, t: Tok)
    requires
        head.len() <= ts.len(),
        ts.take(head.len() as int) == head,
    ensures
        ts.push(t).take(head.len() as int) == head,
{
    assert(ts.push(t).take(head.len() as int) == ts.take(head.len() as int));
}

proof fn lemma_unrolled(text: Seq<char>, st: ScanState, head: Seq<Tok>, col: int)
    requires
        begins(st, head),
    ensures
        begins(model::unrolled(text, st, col), head),
    decreases st.indents.len() + if st.indent > -1 { 1int } else { 0 },
{
    if st.flow_depth == 0 && st.indent > col && col >= -1 {
        let popped = if st.indents.len() == 0 {
            ScanState { indent: -1, ..st }
        } else {
            ScanState { indent: st.indents.last(), indents: st.indents.drop_last(), ..st }
        };
        let end = model::tok(text, Lexeme::BlockEnd, st.pos, st.pos);
        lemma_push(st.out, head, end);
        lemma_unrolled(text, ScanState { out: st.out.push(end), ..popped }, head, col);
    }
}

/// The tokens of a confirmed key go behind the head.
proof fn lemma_key_confirmed(text: Seq<char>, st: ScanState, head: Seq<Tok>, k: KeyMark)
    requires
        begins(st, head),
        st.key == Some(k),
    ensures
        begins(model::key_confirmed(text, st, k), head),
{
    let col = lex::indent_at(text, k.at);
    let open = model::rolled(text, st, col, Lexeme::BlockMappingStart, k.at, k.number);
    let number = k.number + open.out.len() - st.out.len();
    let start = model::tok(text, Lexeme::BlockMappingStart, k.at, k.at);
    lemma_insert(st.out, head, k.number, start);
    lemma_insert(open.out, head, number, model::tok(text, Lexeme::Key, k.at, k.at));
}

/// A block collection that opens here goes behind the head.
proof fn lemma_rolled(text: Seq<char>, st: ScanState, head: Seq<Tok>, kind: Lexeme)
    requires
        begins(st, head),
    ensures
        begins(
            model::rolled(
                text,
                st,
                lex::indent_at(text, st.pos),
                kind,
                st.pos,
                st.out.len() as int,
            ),
            head,
        ),
{
    lemma_insert(st.out, head, st.out.len() as int, model::tok(text, kind, st.pos, st.pos));
}

/// A document marker leaves the head alone.
proof fn lemma_markers(text: Seq<char>, st: ScanState, head: Seq<Tok>)
    requires
        begins(st, head),
    ensures
        begins(model::document_start(text, st).st, head),
        model::document_end(text, st) matches Ok(p) ==> begins(p.st, head),
{
    lemma_unrolled(text, st, head, -1);
}

/// A block indicator leaves the head alone.
proof fn lemma_indicators(text: Seq<char>, st: ScanState, head: Seq<Tok>)
    requires
        begins(st, head),
    ensures
        begins(model::block_value(text, st).st, head),
        begins(model::block_key(text, st).st, head),
        model::block_entry(text, st) matches Ok(p) ==> begins(p.st, head),
{
    lemma_rolled(text, st, head, Lexeme::BlockMappingStart);
    lemma_rolled(text, st, head, Lexeme::BlockSequenceStart);
    if let Some(k) = st.key {
        lemma_key_confirmed(text, st, head, k);
    }
}

/// A node leaves the head alone.
proof fn lemma_node(text: Seq<char>, st: ScanState, head: Seq<Tok>)
    requires
        begins(st, head),
        model::block_entry(text, st) matches Ok(p) ==> begins(p.st, head),
    ensures
        model::node(text, st) matches Ok(p) ==> begins(p.st, head),
{
}

proof fn lemma_content(text: Seq<char>, st: ScanState, head: Seq<Tok>)
    requires
        begins(st, head),
    ensures
        model::content(text, st) matches Ok(p) ==> begins(p.st, head),
{
    let c = text[st.pos];
    if lex::marker_at(text, st.pos, '-') || lex::marker_at(text, st.pos, '.') {
        lemma_markers(text, st, head);
    } else if c == '[' || c == ']' || c == '{' || c == '}' || c == ',' || c == ':' && st.flow_depth
        > 0 {
        assert(model::content(text, st)->Ok_0.st.out == st.out);
    } else if lex::value_indicator_at(text, st.pos) {
        lemma_indicators(text, st, head);
        assert(model::content(text, st)->Ok_0 == model::block_value(text, st));
    } else if c == '?' && lex::terminator_at(text, st.pos + 1) {
        lemma_indicators(text, st, head);
    } else {
        lemma_indicators(text, st, head);
        lemma_node(text, st, head);
        assert(model::content(text, st) == model::node(text, st));
    }
}

/// No step changes the head.
proof fn lemma_fetch(text: Seq<char>, limits: Limits, st: ScanState, head: Seq<Tok>)
    requires
        begins(st, head),
        model::inside(text, st),
        !st.ended,
    ensures
        model::fetch(text, limits, st) matches Ok(next) ==> begins(next, head),
{
    if !st.started {
        lemma_push(st.out, head, model::tok(text, Lexeme::StreamStart, st.pos, st.pos));
    } else if let Ok(next) = model::after_gap(text, st) {
        model::lemma_after_gap(text, st);
        assert(begins(next, head));
        let col = lex::indent_at(text, next.pos);
        let level = model::unrolled(text, next, col);
        lemma_unrolled(text, next, head, col);
        model::lemma_unrolled(text, next, col);
        if next.pos < text.len() {
            let marked = model::key_marked(text, level);
            assert(begins(marked, head));
            lemma_content(text, marked, head);
            if let Ok(p) = model::content(text, marked) {
                lemma_push(p.st.out, head, p.tok);
            }
        } else {
            let bare = ScanState { key: None, ..level };
            lemma_unrolled(text, bare, head, -1);
            model::lemma_unrolled(text, bare, -1);
            let closed = model::unrolled(text, bare, -1);
            lemma_push(closed.out, head, model::tok(text, Lexeme::StreamEnd, level.pos, level.pos));
        }
    }
}

proof fn lemma_run(text: Seq<char>, limits: Limits, st: ScanState, head: Seq<Tok>)
    requires
        begins(st, head),
    ensures
        model::run(text, limits, st) matches Ok(last) ==> begins(last, head),
    decreases model::remaining(text, st),
{
    if !(st.ended || !model::inside(text, st)) {
        model::lemma_fetch(text, limits, st);
        lemma_fetch(text, limits, st, head);
        if let Ok(next) = model::fetch(text, limits, st) {
            lemma_run(text, limits, next, head);
        }
    }
}

proof fn lemma_settled(text: Seq<char>, limits: Limits, st: ScanState, n: int)
    requires
        begins(st, Seq::empty()),
        model::inside(text, st),
    ensures
        model::settled(text, limits, st, n) matches Ok(next) ==> begins(next, Seq::empty()) && (
        model::ready(next, n) || next.ended),
    decreases model::remaining(text, st),
{
    if !(model::ready(st, n) || st.ended) {
        model::lemma_fetch(text, limits, st);
        lemma_fetch(text, limits, st, Seq::empty());
        if let Ok(next) = model::fetch(text, limits, st) {
            lemma_settled(text, limits, next, n);
        }
    }
}

// ---------------------------------------------------------------------------
// Pulls
// ---------------------------------------------------------------------------

/// A state of a scanner that reads the text from its start.
pub open spec fn is_on_its_way(text: Seq<char>, limits: Limits, st: ScanState) -> bool {
    &&& model::inside(text, st)
    &&& begins(st, Seq::empty())
    &&& model::run(text, limits, st) == model::run(text, limits, model::initial_state())
}

/// One more pull.
proof fn lemma_pull(text: Seq<char>, limits: Limits, st: ScanState, n: int)
    requires
        is_on_its_way(text, limits, st),
    ensures
        match model::settled(text, limits, st, n) {
            Err(f) => model::tokens(text, limits) == Err::<Seq<Tok>, Fault>(f.fault),
            Ok(next) => {
                &&& is_on_its_way(text, limits, next)
                &&& next == st || model::remaining(text, next) < model::remaining(text, st)
                &&& model::ready(next, n) ==> (model::tokens(text, limits) matches Ok(ts) ==> n
                    < ts.len() && (0 <= n ==> ts[n] == next.out[n]))
                &&& !model::ready(next, n) ==> next.out.len() <= n && model::tokens(text, limits)
                    == Ok::<Seq<Tok>, Fault>(next.out)
            },
        },
{
    model::lemma_settled(text, limits, st, n);
    lemma_settled(text, limits, st, n);
    if let Ok(next) = model::settled(text, limits, st, n) {
        if model::ready(next, n) {
            assert(next.out.take(next.out.len() as int) == next.out);
            lemma_run(text, limits, next, next.out);
            if let Ok(last) = model::run(text, limits, next) {
                if 0 <= n {
                    assert(last.out.take(next.out.len() as int)[n] == last.out[n]);
                }
            }
        }
    }
}

/// Nothing is read yet.
proof fn lemma_initial(text: Seq<char>, limits: Limits)
    ensures
        is_on_its_way(text, limits, model::initial_state()),
{
    assert(model::initial_state().out.take(0) == Seq::<Tok>::empty());
}

/// The state before each token of the text.
proof fn lemma_pulls(text: Seq<char>, limits: Limits, n: nat)
    requires
        model::tokens(text, limits) matches Ok(ts) && n <= ts.len(),
    ensures
        after_pulls(text, limits, n) matches Ok(st) && is_on_its_way(text, limits, st),
    decreases n,
{
    if n == 0 {
        lemma_initial(text, limits);
    } else {
        lemma_pulls(text, limits, (n - 1) as nat);
        let st = after_pulls(text, limits, (n - 1) as nat)->Ok_0;
        lemma_pull(text, limits, st, n - 1);
    }
}

/// The pull behind the first `n` tokens of the text.
proof fn lemma_pulled(text: Seq<char>, limits: Limits, ts: Seq<Tok>, n: nat)
    requires
        model::tokens(text, limits) == Ok::<Seq<Tok>, Fault>(ts),
        n <= ts.len(),
    ensures
        n < ts.len() ==> pulled(text, limits, n) == Ok::<Option<Tok>, Fault>(Some(ts[n as int])),
        n == ts.len() ==> pulled(text, limits, n) == Ok::<Option<Tok>, Fault>(None),
{
    lemma_pulls(text, limits, n);
    let st = after_pulls(text, limits, n)->Ok_0;
    lemma_pull(text, limits, st, n as int);
    assert(after_pulls(text, limits, n + 1) == model::settled(text, limits, st, n as int));
}

/// Where the scan fails, some pull fails.
proof fn lemma_failing_pull(text: Seq<char>, limits: Limits, st: ScanState, n: nat) -> (k: nat)
    requires
        model::tokens(text, limits) is Err,
        after_pulls(text, limits, n) == Ok::<ScanState, Failure>(st),
        is_on_its_way(text, limits, st),
        n <= st.out.len(),
    ensures
        pulled(text, limits, k) matches Err(f) && model::tokens(text, limits) == Err::<
            Seq<Tok>,
            Fault,
        >(f),
    decreases model::remaining(text, st), st.out.len() - n,
{
    lemma_pull(text, limits, st, n as int);
    match model::settled(text, limits, st, n as int) {
        Err(f) => n,
        Ok(next) => lemma_failing_pull(text, limits, next, n + 1),
    }
}

/// Tokens taken one by one from a new scanner are the tokens of the whole text, in
/// order, and then nothing is left. Where the scan of the whole text fails, one of
/// the calls gives that fault.
pub proof fn law_pulls_give_the_tokens(text: Seq<char>, limits: Limits)
    ensures
        match model::tokens(text, limits) {
            Ok(ts) => {
                &&& forall|n: nat|
                    n < ts.len() ==> #[trigger] pulled(text, limits, n) == Ok::<Option<Tok>, Fault>(
                        Some(ts[n as int]),
                    )
                &&& pulled(text, limits, ts.len()) == Ok::<Option<Tok>, Fault>(None)
            },
            Err(f) => exists|n: nat|
                #[trigger] pulled(text, limits, n) == Err::<Option<Tok>, Fault>(f),
        },
{
    match model::tokens(text, limits) {
        Ok(ts) => {
            assert forall|n: nat| n < ts.len() implies #[trigger] pulled(text, limits, n) == Ok::<
                Option<Tok>,
                Fault,
            >(Some(ts[n as int])) by {
                lemma_pulled(text, limits, ts, n);
            }
            lemma_pulled(text, limits, ts, ts.len());
        },
        Err(f) => {
            lemma_initial(text, limits);
            let k = lemma_failing_pull(text, limits, model::initial_state(), 0);
            assert(pulled(text, limits, k) == Err::<Option<Tok>, Fault>(f));
        },
    }
}

} // verus!
