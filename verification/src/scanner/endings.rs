//! How lines end, and a comment before the text, make no difference to the tokens.

use crate::options::Limits;
use crate::scanner::alike;
use crate::scanner::alike::Twins;
use crate::scanner::lex;
use crate::scanner::lex::Run;
use crate::scanner::model;
use crate::scanner::model::{Failure, Gap, KeyMark, Produced, ScanState};
use crate::scanner::properties;
use crate::scanner::reader;
use crate::scanner::token::{Lexeme, Tok};
use crate::text;
use vstd::prelude::*;

verus! {

/// The kinds of tokens.
pub open spec fn kinds(ts: Seq<Tok>) -> Seq<Lexeme> {
    Seq::new(ts.len(), |i: int| ts[i].kind)
}

proof fn lemma_kinds_push(ts: Seq<Tok>, us: Seq<Tok>, t: Tok, u: Tok)
    requires
        kinds(ts) == kinds(us),
        t.kind == u.kind,
    ensures
        kinds(ts.push(t)) == kinds(us.push(u)),
{
    assert(kinds(ts.push(t)) =~= kinds(ts).push(t.kind));
    assert(kinds(us.push(u)) =~= kinds(us).push(u.kind));
}

proof fn lemma_kinds_insert(ts: Seq<Tok>, us: Seq<Tok>, n: int, t: Tok, u: Tok)
    requires
        kinds(ts) == kinds(us),
        t.kind == u.kind,
        0 <= n <= ts.len(),
    ensures
        kinds(ts.insert(n, t)) == kinds(us.insert(n, u)),
        ts.insert(n, t).len() == us.insert(n, u).len(),
{
    assert(kinds(ts).len() == ts.len() && kinds(us).len() == us.len());
    assert(kinds(ts.insert(n, t)) =~= kinds(ts).insert(n, t.kind));
    assert(kinds(us.insert(n, u)) =~= kinds(us).insert(n, u.kind));
}

/// The key marks stand at the same place.
pub open spec fn same_mark(t: Twins, k: Option<KeyMark>, l: Option<KeyMark>, tokens: nat) -> bool {
    match (k, l) {
        (None, None) => true,
        (Some(k), Some(l)) => {
            &&& k.number == l.number
            &&& 0 <= k.number <= tokens
            &&& alike::in_first(t, k.at)
            &&& l.at == alike::to(t, k.at)
        },
        _ => false,
    }
}

/// The states of two scans of texts that are read alike, at the same place.
pub open spec fn are_twins(t: Twins, sa: ScanState, sb: ScanState) -> bool {
    &&& alike::in_first(t, sa.pos)
    &&& sb.pos == alike::to(t, sa.pos)
    &&& kinds(sa.out) == kinds(sb.out)
    &&& sa.out.len() == sb.out.len()
    &&& same_mark(t, sa.key, sb.key, sa.out.len())
    &&& sb == (ScanState { pos: sb.pos, out: sb.out, key: sb.key, ..sa })
}

/// Both steps lead to twins, or both fail.
pub open spec fn step_alike(
    t: Twins,
    first: Result<ScanState, Failure>,
    second: Result<ScanState, Failure>,
) -> bool {
    match (first, second) {
        (Ok(sa), Ok(sb)) => are_twins(t, sa, sb),
        (Err(_), Err(_)) => true,
        _ => false,
    }
}

/// Both products are of the same kind and leave twins.
pub open spec fn products_alike(t: Twins, p: Produced, q: Produced) -> bool {
    are_twins(t, p.st, q.st) && p.tok.kind == q.tok.kind
}

pub open spec fn produce_alike(
    t: Twins,
    first: Result<Produced, Failure>,
    second: Result<Produced, Failure>,
) -> bool {
    match (first, second) {
        (Ok(p), Ok(q)) => products_alike(t, p, q),
        (Err(_), Err(_)) => true,
        _ => false,
    }
}

// ---------------------------------------------------------------------------
// Steps
// ---------------------------------------------------------------------------

proof fn lemma_after_gap(t: Twins, sa: ScanState, sb: ScanState)
    requires
        alike::are_alike(t),
        are_twins(t, sa, sb),
    ensures
        step_alike(t, model::after_gap(t.a, sa), model::after_gap(t.b, sb)),
{
    let before = Gap {
        pos: sa.pos,
        separated: reader::position_at(t.a, sa.pos).column == 1,
        key_allowed: sa.key_allowed,
        at_line_start: sa.at_line_start,
        tab_in_indent: sa.tab_in_indent,
    };
    alike::lemma_here(t, sa.pos);
    alike::lemma_gap(t, sa.flow_depth == 0, before);
    if let Ok(g) = model::skip_gap(t.a, sa.flow_depth == 0, before) {
        alike::lemma_here(t, g.pos);
        if let Some(k) = sa.key {
            alike::lemma_here(t, k.at);
        }
    }
}

proof fn lemma_unrolled(t: Twins, sa: ScanState, sb: ScanState, col: int)
    requires
        are_twins(t, sa, sb),
    ensures
        are_twins(t, model::unrolled(t.a, sa, col), model::unrolled(t.b, sb, col)),
    decreases sa.indents.len() + if sa.indent > -1 { 1int } else { 0 },
{
    if sa.flow_depth == 0 && sa.indent > col && col >= -1 {
        let end = model::tok(t.a, Lexeme::BlockEnd, sa.pos, sa.pos);
        let other = model::tok(t.b, Lexeme::BlockEnd, sb.pos, sb.pos);
        let (indent, indents) = if sa.indents.len() == 0 {
            (-1int, sa.indents)
        } else {
            (sa.indents.last(), sa.indents.drop_last())
        };
        lemma_kinds_push(sa.out, sb.out, end, other);
        lemma_unrolled(
            t,
            ScanState { out: sa.out.push(end), indent, indents, ..sa },
            ScanState { out: sb.out.push(other), indent, indents, ..sb },
            col,
        );
    }
}

proof fn lemma_rolled(
    t: Twins,
    sa: ScanState,
    sb: ScanState,
    col: int,
    kind: Lexeme,
    mark: int,
    number: int,
)
    requires
        are_twins(t, sa, sb),
        0 <= number <= sa.out.len(),
    ensures
        are_twins(
            t,
            model::rolled(t.a, sa, col, kind, mark, number),
            model::rolled(t.b, sb, col, kind, alike::to(t, mark), number),
        ),
        model::rolled(t.a, sa, col, kind, mark, number).out.len() >= sa.out.len(),
{
    let p = alike::to(t, mark);
    lemma_kinds_insert(
        sa.out,
        sb.out,
        number,
        model::tok(t.a, kind, mark, mark),
        model::tok(t.b, kind, p, p),
    );
}

/// An indicator that covers `n` characters.
proof fn lemma_indicator(t: Twins, sa: ScanState, sb: ScanState, kind: Lexeme, n: int)
    requires
        are_twins(t, sa, sb),
        0 <= n,
        sa.pos + n <= t.a.len(),
        alike::to(t, sa.pos + n) == sb.pos + n,
    ensures
        products_alike(
            t,
            model::indicator(t.a, sa, kind, n),
            model::indicator(t.b, sb, kind, n),
        ),
{
}

proof fn lemma_markers(t: Twins, sa: ScanState, sb: ScanState)
    requires
        alike::are_alike(t),
        are_twins(t, sa, sb),
        lex::any_marker_at(t.a, sa.pos),
    ensures
        products_alike(t, model::document_start(t.a, sa), model::document_start(t.b, sb)),
        produce_alike(t, model::document_end(t.a, sa), model::document_end(t.b, sb)),
{
    alike::lemma_signs(t, sa.pos);
    lemma_unrolled(t, sa, sb, -1);
    model::lemma_unrolled(t.a, sa, -1);
    model::lemma_unrolled(t.b, sb, -1);
    let e = lex::run_end(Run::Spaces, t.a, sa.pos + 3);
    alike::lemma_run(t, Run::Spaces, sa.pos + 3);
    alike::lemma_here(t, e);
}

proof fn lemma_block_value(t: Twins, sa: ScanState, sb: ScanState)
    requires
        alike::are_alike(t),
        are_twins(t, sa, sb),
        sa.pos < t.a.len(),
        !text::is_break(t.a[sa.pos]),
    ensures
        products_alike(t, model::block_value(t.a, sa), model::block_value(t.b, sb)),
{
    alike::lemma_here(t, sa.pos);
    match sa.key {
        Some(k) => {
            let l = sb.key->Some_0;
            alike::lemma_here(t, k.at);
            let col = lex::indent_at(t.a, k.at);
            let start = Lexeme::BlockMappingStart;
            lemma_rolled(t, sa, sb, col, start, k.at, k.number);
            let open = model::rolled(t.a, sa, col, start, k.at, k.number);
            let other = model::rolled(t.b, sb, col, start, l.at, l.number);
            let number = k.number + open.out.len() - sa.out.len();
            lemma_kinds_insert(
                open.out,
                other.out,
                number,
                model::tok(t.a, Lexeme::Key, k.at, k.at),
                model::tok(t.b, Lexeme::Key, l.at, l.at),
            );
        },
        None => {
            let col = lex::indent_at(t.a, sa.pos);
            let number = sa.out.len() as int;
            lemma_rolled(t, sa, sb, col, Lexeme::BlockMappingStart, sa.pos, number);
        },
    }
}

proof fn lemma_block_starts(t: Twins, sa: ScanState, sb: ScanState)
    requires
        alike::are_alike(t),
        are_twins(t, sa, sb),
        sa.pos < t.a.len(),
        !text::is_break(t.a[sa.pos]),
    ensures
        products_alike(t, model::block_key(t.a, sa), model::block_key(t.b, sb)),
        produce_alike(t, model::block_entry(t.a, sa), model::block_entry(t.b, sb)),
{
    alike::lemma_here(t, sa.pos);
    let col = lex::indent_at(t.a, sa.pos);
    let number = sa.out.len() as int;
    lemma_rolled(t, sa, sb, col, Lexeme::BlockMappingStart, sa.pos, number);
    lemma_rolled(t, sa, sb, col, Lexeme::BlockSequenceStart, sa.pos, number);
}

proof fn lemma_plain_token(t: Twins, sa: ScanState, sb: ScanState)
    requires
        alike::are_alike(t),
        are_twins(t, sa, sb),
    ensures
        products_alike(t, model::plain_token(t.a, sa), model::plain_token(t.b, sb)),
{
    alike::lemma_plain(t, sa.pos, sa.flow_depth > 0, sa.indent);
}

#[verifier::rlimit(30)]
#[verifier::spinoff_prover]
proof fn lemma_node(t: Twins, sa: ScanState, sb: ScanState)
    requires
        alike::are_alike(t),
        are_twins(t, sa, sb),
        sa.pos < t.a.len(),
        !text::is_break(t.a[sa.pos]),
    ensures
        produce_alike(t, model::node(t.a, sa), model::node(t.b, sb)),
{
    alike::lemma_here(t, sa.pos);
    alike::lemma_behind(t, sa.pos);
    let block = sa.flow_depth == 0;
    assert(t.b[sb.pos] == t.a[sa.pos]);
    if model::introduces_node(t.a[sa.pos], block) {
        alike::lemma_introduced(t, sa.pos, sa.handles, sa.indent);
    } else if t.a[sa.pos] == '-' && block && lex::separator_at(t.a, sa.pos + 1) {
        lemma_block_starts(t, sa, sb);
        assert(model::node(t.a, sa) == model::block_entry(t.a, sa));
        assert(model::node(t.b, sb) == model::block_entry(t.b, sb));
    } else {
        lemma_plain_token(t, sa, sb);
    }
}

#[verifier::rlimit(30)]
#[verifier::spinoff_prover]
proof fn lemma_content(t: Twins, sa: ScanState, sb: ScanState)
    requires
        alike::are_alike(t),
        are_twins(t, sa, sb),
        sa.pos < t.a.len(),
        !text::is_break(t.a[sa.pos]),
    ensures
        produce_alike(t, model::content(t.a, sa), model::content(t.b, sb)),
{
    let i = sa.pos;
    alike::lemma_here(t, i);
    alike::lemma_behind(t, i);
    alike::lemma_signs(t, i);
    if lex::any_marker_at(t.a, i) {
        lemma_markers(t, sa, sb);
    } else if text::is_flow_indicator(t.a[i]) || t.a[i] == ':' && sa.flow_depth > 0 {
    } else if lex::value_indicator_at(t.a, i) {
        lemma_block_value(t, sa, sb);
    } else if t.a[i] == '?' && lex::terminator_at(t.a, i + 1) {
        lemma_block_starts(t, sa, sb);
    } else {
        lemma_node(t, sa, sb);
    }
}

proof fn lemma_added(t: Twins, at: int, p: Produced, q: Produced)
    requires
        products_alike(t, p, q),
    ensures
        step_alike(
            t,
            model::token_added(t.a, at, p),
            model::token_added(t.b, alike::to(t, at), q),
        ),
{
    lemma_kinds_push(p.st.out, q.st.out, p.tok, q.tok);
}

proof fn lemma_end(t: Twins, sa: ScanState, sb: ScanState)
    requires
        are_twins(t, sa, sb),
    ensures
        step_alike(t, model::end_step(t.a, sa), model::end_step(t.b, sb)),
{
    let first = ScanState { key: None, ..sa };
    let second = ScanState { key: None, ..sb };
    lemma_unrolled(t, first, second, -1);
    lemma_kinds_push(
        model::unrolled(t.a, first, -1).out,
        model::unrolled(t.b, second, -1).out,
        model::tok(t.a, Lexeme::StreamEnd, sa.pos, sa.pos),
        model::tok(t.b, Lexeme::StreamEnd, sb.pos, sb.pos),
    );
}

proof fn lemma_directive(t: Twins, sa: ScanState, sb: ScanState)
    requires
        alike::are_alike(t),
        are_twins(t, sa, sb),
        sa.pos < t.a.len(),
        !text::is_break(t.a[sa.pos]),
    ensures
        step_alike(t, model::directive_step(t.a, sa), model::directive_step(t.b, sb)),
{
    let handles = if sa.needs_reset {
        properties::default_handles()
    } else {
        sa.handles
    };
    alike::lemma_directive(t, sa.pos, handles, sa.yaml_seen);
}

proof fn lemma_token_step(t: Twins, sa: ScanState, sb: ScanState)
    requires
        alike::are_alike(t),
        are_twins(t, sa, sb),
        sa.pos < t.a.len() ==> !text::is_break(t.a[sa.pos]),
    ensures
        step_alike(t, model::token_step(t.a, sa), model::token_step(t.b, sb)),
{
    alike::lemma_here(t, sa.pos);
    let col = lex::indent_at(t.a, sa.pos);
    assert(lex::indent_at(t.b, sb.pos) == col);
    let level = model::unrolled(t.a, sa, col);
    let other = model::unrolled(t.b, sb, col);
    lemma_unrolled(t, sa, sb, col);
    model::lemma_unrolled(t.a, sa, col);
    model::lemma_unrolled(t.b, sb, col);
    if sa.pos < t.a.len() {
        lemma_directive(t, sa, sb);
        let marked = model::key_marked(t.a, level);
        let same = model::key_marked(t.b, other);
        assert(are_twins(t, marked, same));
        lemma_content(t, marked, same);
        if let (Ok(p), Ok(q)) = (model::content(t.a, marked), model::content(t.b, same)) {
            lemma_added(t, sa.pos, p, q);
        }
    } else {
        lemma_end(t, level, other);
    }
}

/// A step leads to twins.
proof fn lemma_fetch(t: Twins, limits: Limits, sa: ScanState, sb: ScanState)
    requires
        alike::are_alike(t),
        are_twins(t, sa, sb),
        sa.started,
    ensures
        step_alike(t, model::fetch(t.a, limits, sa), model::fetch(t.b, limits, sb)),
{
    lemma_after_gap(t, sa, sb);
    model::lemma_after_gap(t.a, sa);
    if let (Ok(na), Ok(nb)) = (model::after_gap(t.a, sa), model::after_gap(t.b, sb)) {
        lemma_token_step(t, na, nb);
    }
}

/// Both runs give tokens of the same kinds, or both fail.
pub open spec fn run_alike(
    first: Result<ScanState, Failure>,
    second: Result<ScanState, Failure>,
) -> bool {
    match (first, second) {
        (Ok(sa), Ok(sb)) => kinds(sa.out) == kinds(sb.out),
        (Err(_), Err(_)) => true,
        _ => false,
    }
}

proof fn lemma_run(t: Twins, limits: Limits, sa: ScanState, sb: ScanState)
    requires
        alike::are_alike(t),
        are_twins(t, sa, sb),
        sa.started,
    ensures
        run_alike(model::run(t.a, limits, sa), model::run(t.b, limits, sb)),
    decreases model::remaining(t.a, sa),
{
    alike::lemma_here(t, sa.pos);
    if !sa.ended {
        model::lemma_fetch(t.a, limits, sa);
        model::lemma_fetch(t.b, limits, sb);
        lemma_fetch(t, limits, sa, sb);
        if let (Ok(na), Ok(nb)) = (model::fetch(t.a, limits, sa), model::fetch(t.b, limits, sb)) {
            model::lemma_started(t.a, limits, sa);
            lemma_run(t, limits, na, nb);
        }
    }
}

// ---------------------------------------------------------------------------
// Places
// ---------------------------------------------------------------------------

/// Columns are the same and lines a fixed number apart, from the first place on.
proof fn lemma_places(t: Twins, i: int)
    requires
        0 <= i <= t.a.len(),
        forall|i: int| 0 <= i < t.a.len() ==> #[trigger] alike::steps(t, i),
        0 <= alike::to(t, 0),
        reader::column_at(t.b, alike::to(t, 0)) == 1,
        reader::line_at(t.b, alike::to(t, 0)) == 1 + t.lines,
        alike::to(t, t.a.len() as int) == t.b.len(),
    ensures
        0 <= alike::to(t, i) <= t.b.len(),
        reader::column_at(t.b, alike::to(t, i)) == reader::column_at(t.a, i),
        reader::line_at(t.b, alike::to(t, i)) == reader::line_at(t.a, i) + t.lines,
    decreases i,
{
    if i < t.a.len() {
        assert(alike::steps(t, i));
    }
    if i > 0 {
        lemma_places(t, i - 1);
        assert(alike::steps(t, i - 1));
        let p = alike::to(t, i - 1);
        if t.cr && t.a[i - 1] == '\n' {
            assert(!reader::ends_line(t.b, p));
            assert(reader::line_at(t.b, p + 1) == reader::line_at(t.b, p));
            assert(reader::ends_line(t.b, p + 1));
        } else {
            assert(reader::ends_line(t.b, p) == reader::ends_line(t.a, i - 1));
        }
    }
}

/// Texts whose characters correspond are read alike, as far as their lines can be
/// counted.
proof fn lemma_alike(t: Twins)
    requires
        forall|i: int| 0 <= i < t.a.len() ==> #[trigger] alike::steps(t, i),
        0 <= alike::to(t, 0),
        reader::column_at(t.b, alike::to(t, 0)) == 1,
        reader::line_at(t.b, alike::to(t, 0)) == 1 + t.lines,
        alike::to(t, t.a.len() as int) == t.b.len(),
        t.lines == 0 || 0 < t.lines && t.a.len() + 1 + t.lines <= usize::MAX,
    ensures
        alike::are_alike(t),
{
    assert forall|i: int| 0 <= i <= t.a.len() implies #[trigger] alike::lies(t, i) by {
        lemma_places(t, i);
        reader::lemma_counts(t.a, i);
    }
}

/// The state behind the start of the stream.
spec fn started(text: Seq<char>, pos: int) -> ScanState {
    let first = model::initial_state();
    ScanState {
        started: true,
        pos,
        out: first.out.push(model::tok(text, Lexeme::StreamStart, 0, 0)),
        ..first
    }
}

/// The whole runs of texts that are read alike.
proof fn lemma_whole(t: Twins, limits: Limits)
    requires
        alike::are_alike(t),
    ensures
        run_alike(
            model::run(t.a, limits, started(t.a, 0)),
            model::run(t.b, limits, started(t.b, alike::to(t, 0))),
        ),
{
    let sa = started(t.a, 0);
    let sb = started(t.b, alike::to(t, 0));
    let none = Seq::<Tok>::empty();
    lemma_kinds_push(
        none,
        none,
        model::tok(t.a, Lexeme::StreamStart, 0, 0),
        model::tok(t.b, Lexeme::StreamStart, 0, 0),
    );
    lemma_run(t, limits, sa, sb);
}

/// The first step of a text that is not too large.
proof fn lemma_start(text: Seq<char>, limits: Limits)
    requires
        reader::byte_offset(text, text.len() as int) <= limits.max_input_bytes,
    ensures
        model::run(text, limits, model::initial_state()) == model::run(
            text,
            limits,
            started(text, 0),
        ),
{
    let first = model::initial_state();
    assert(model::fetch(text, limits, first) == Ok::<ScanState, Failure>(started(text, 0)));
}

// ---------------------------------------------------------------------------
// Line ends
// ---------------------------------------------------------------------------

/// The text with every `\n` written as `\r\n`.
pub open spec fn with_crlf(text: Seq<char>) -> Seq<char>
    decreases text.len(),
{
    if text.len() == 0 {
        text
    } else if text.last() == '\n' {
        with_crlf(text.drop_last()) + seq!['\r', '\n']
    } else {
        with_crlf(text.drop_last()).push(text.last())
    }
}

/// One more character of the text.
proof fn lemma_crlf_step(text: Seq<char>, i: int)
    requires
        0 <= i < text.len(),
    ensures
        with_crlf(text.take(i + 1)) == if text[i] == '\n' {
            with_crlf(text.take(i)) + seq!['\r', '\n']
        } else {
            with_crlf(text.take(i)).push(text[i])
        },
{
    assert(text.take(i + 1).drop_last() == text.take(i));
    assert(text.take(i + 1).last() == text[i]);
}

/// The beginning of the text is written first.
proof fn lemma_crlf_prefix(text: Seq<char>, i: int, j: int)
    requires
        0 <= i <= j <= text.len(),
    ensures
        with_crlf(text.take(i)).len() <= with_crlf(text.take(j)).len(),
        forall|k: int|
            0 <= k < with_crlf(text.take(i)).len() ==> with_crlf(text.take(j))[k]
                == #[trigger] with_crlf(text.take(i))[k],
    decreases j - i,
{
    if i < j {
        lemma_crlf_prefix(text, i, j - 1);
        lemma_crlf_step(text, j - 1);
        let before = with_crlf(text.take(j - 1));
        assert forall|k: int| 0 <= k < with_crlf(text.take(i)).len() implies with_crlf(
            text.take(j),
        )[k] == #[trigger] with_crlf(text.take(i))[k] by {
            assert(before[k] == with_crlf(text.take(i))[k]);
            assert(with_crlf(text.take(j))[k] == before[k]);
        }
    }
}

/// Both texts give tokens of the same kinds, or neither gives any.
pub open spec fn same_kinds(text: Seq<char>, other: Seq<char>, limits: Limits) -> bool {
    match (model::tokens(text, limits), model::tokens(other, limits)) {
        (Ok(ts), Ok(us)) => kinds(ts) == kinds(us),
        (Err(_), Err(_)) => true,
        _ => false,
    }
}

/// The text is not larger than the limits allow.
pub open spec fn is_accepted(text: Seq<char>, limits: Limits) -> bool {
    reader::byte_offset(text, text.len() as int) <= limits.max_input_bytes
}

/// It makes no difference whether lines end with `\n` or with `\r\n`: both texts give
/// tokens of the same kinds, in the same order, or both are rejected.
pub proof fn law_line_ends_do_not_matter(text: Seq<char>, limits: Limits)
    requires
        forall|i: int| 0 <= i < text.len() ==> text[i] != '\r',
        is_accepted(text, limits),
        is_accepted(with_crlf(text), limits),
    ensures
        same_kinds(text, with_crlf(text), limits),
{
    let t = Twins {
        a: text,
        b: with_crlf(text),
        place: |i: int| with_crlf(text.take(i)).len() as int,
        lines: 0,
        cr: true,
    };
    let all = text.len() as int;
    assert(text.take(all) == text);
    assert(text.take(0) == Seq::<char>::empty());
    assert(alike::to(t, 0) == 0);
    assert(alike::to(t, all) == t.b.len());
    assert forall|i: int| 0 <= i < text.len() implies #[trigger] alike::steps(t, i) by {
        lemma_crlf_step(text, i);
        lemma_crlf_prefix(text, i + 1, all);
        let before = with_crlf(text.take(i));
        let after = with_crlf(text.take(i + 1));
        let p = before.len() as int;
        assert(alike::to(t, i) == p);
        assert(alike::to(t, i + 1) == after.len());
        assert(t.b[p] == after[p]);
        if text[i] == '\n' {
            assert(t.b[p + 1] == after[p + 1]);
        }
    }
    lemma_alike(t);
    lemma_whole(t, limits);
    lemma_start(text, limits);
    lemma_start(t.b, limits);
}

// ---------------------------------------------------------------------------
// Comments
// ---------------------------------------------------------------------------

/// The text behind a line that holds a comment.
pub open spec fn with_comment(comment: Seq<char>, text: Seq<char>) -> Seq<char> {
    seq!['#', ' '] + comment + seq!['\n'] + text
}

/// The first gap passes over the comment.
proof fn lemma_comment_gap(comment: Seq<char>, text: Seq<char>, limits: Limits)
    requires
        forall|i: int| 0 <= i < comment.len() ==> !text::is_break(#[trigger] comment[i]),
    ensures
        ({
            let b = with_comment(comment, text);
            let k = comment.len() as int + 3;
            run_alike(
                model::run(b, limits, started(b, 0)),
                model::run(b, limits, started(b, k)),
            )
        }),
{
    let b = with_comment(comment, text);
    let k = comment.len() as int + 3;
    let first = started(b, 0);
    let second = started(b, k);
    let g = Gap {
        pos: 0,
        separated: true,
        key_allowed: true,
        at_line_start: true,
        tab_in_indent: false,
    };
    assert forall|i: int| 0 <= i < k - 1 implies #[trigger] lex::in_run(Run::Line, b, i) by {
        if i >= 2 {
            assert(b[i] == comment[i - 2]);
        }
    }
    assert(b[k - 1] == '\n');
    lex::lemma_run_is(Run::Line, b, 0, k - 1);
    let end = Gap { pos: k - 1, ..g };
    let next = Gap { pos: k, ..g };
    assert(b[0] == '#');
    assert(model::skip_gap(b, true, g) == model::skip_gap(b, true, end));
    assert(model::skip_gap(b, true, end) == model::skip_gap(b, true, next));
    assert(reader::column_at(b, k) == 1);
    assert(model::after_gap(b, first) is Ok == model::after_gap(b, second) is Ok);
    if let Ok(past) = model::after_gap(b, first) {
        assert(model::after_gap(b, second) == Ok::<ScanState, Failure>(past));
    }
    model::lemma_fetch(b, limits, first);
    model::lemma_fetch(b, limits, second);
}

/// A text takes no more bytes than with something before it.
proof fn lemma_offsets(b: Seq<char>, text: Seq<char>, k: int, i: int)
    requires
        0 <= k,
        0 <= i <= text.len(),
        k + text.len() <= b.len(),
        forall|j: int| 0 <= j < text.len() ==> b[j + k] == #[trigger] text[j],
    ensures
        reader::byte_offset(text, i) <= reader::byte_offset(b, i + k),
        reader::byte_offset(b, k) + reader::byte_offset(text, i) == reader::byte_offset(b, i + k),
    decreases i,
{
    if i > 0 {
        lemma_offsets(b, text, k, i - 1);
        assert(b[(i - 1) + k] == text[i - 1]);
    }
}

/// No line of a comment ends.
proof fn lemma_comment_lines(b: Seq<char>, k: int)
    requires
        0 <= k <= b.len(),
        forall|i: int| 0 <= i < k ==> !text::is_break(#[trigger] b[i]),
    ensures
        reader::line_at(b, k) == 1,
    decreases k,
{
    if k > 0 {
        lemma_comment_lines(b, k - 1);
        assert(!text::is_break(b[k - 1]));
    }
}

/// A comment line before a text makes no difference: the text gives tokens of the same
/// kinds with it and without it, or is rejected either way.
pub proof fn law_leading_comment_does_not_matter(
    comment: Seq<char>,
    text: Seq<char>,
    limits: Limits,
)
    requires
        forall|i: int| 0 <= i < comment.len() ==> !text::is_break(#[trigger] comment[i]),
        is_accepted(with_comment(comment, text), limits),
    ensures
        same_kinds(text, with_comment(comment, text), limits),
{
    let b = with_comment(comment, text);
    let k = comment.len() as int + 3;
    let t = Twins { a: text, b, place: |i: int| i + k, lines: 1, cr: false };
    assert forall|i: int| 0 <= i < text.len() implies #[trigger] alike::steps(t, i) by {
        assert(b[i + k] == text[i]);
    }
    assert forall|i: int| 0 <= i < k - 1 implies !text::is_break(#[trigger] b[i]) by {
        if i >= 2 {
            assert(b[i] == comment[i - 2]);
        }
    }
    assert(b[k - 1] == '\n');
    lemma_comment_lines(b, k - 1);
    assert(reader::line_at(b, k) == 2);
    assert(reader::column_at(b, k) == 1);
    assert(alike::to(t, 0) == k);
    let all = text.len() as int;
    lemma_offsets(b, text, k, all);
    reader::lemma_counts(b, b.len() as int);
    lemma_alike(t);
    lemma_whole(t, limits);
    lemma_comment_gap(comment, text, limits);
    lemma_start(text, limits);
    lemma_start(b, limits);
}

} // verus!
