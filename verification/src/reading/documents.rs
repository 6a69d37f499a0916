//! Texts of documents are scanned as the tokens of the documents.

use crate::options::Limits;
use crate::reading::block;
use crate::reading::block::{Place, Tree};
use crate::reading::steps;
use crate::reading::steps::Rest;
use crate::reading::words;
use crate::reading::words::Piece;
use crate::roundtrip::leaf;
use crate::roundtrip::scan;
use crate::scanner::lex;
use crate::scanner::model;
use crate::scanner::model::{Failure, Produced, ScanState};
use crate::scanner::reader;
use crate::scanner::token::Lexeme;
use vstd::prelude::*;

verus! {

// ---------------------------------------------------------------------------
// Documents
// ---------------------------------------------------------------------------

/// A document: a tree, behind a `---` or alone, and the end of the line of a `...` behind it,
/// where there is one.
pub struct Document {
    pub marked: bool,
    pub tree: Tree,
    pub end: Option<Rest>,
}

/// A document that is laid out as it should be.
pub open spec fn is_document(d: Document) -> bool {
    &&& block::is_tree(
        d.tree,
        if d.marked {
            Place::Document
        } else {
            Place::Root
        },
    )
    &&& !d.marked ==> !(d.tree is Empty)
    &&& d.end matches Some(r) ==> steps::is_rest(r)
}

/// Documents one after the other. One that is not the first has a `---`, or a `...` before
/// it.
pub open spec fn are_documents(ds: Seq<Document>) -> bool {
    &&& forall|i: int| 0 <= i < ds.len() ==> is_document(#[trigger] ds[i])
    &&& forall|i: int|
        0 < i < ds.len() && !(#[trigger] ds[i]).marked ==> ds[i - 1].end is Some
}

/// A tree that stands alone, from the first column of a line.
pub open spec fn root_text(t: Tree) -> Seq<char> {
    match t {
        Tree::Leaf(ps, r) => steps::pieces_text(ps, 0) + steps::rest_text(r),
        _ => block::tree_text(t, -1),
    }
}

/// The tree of a document with the `---` before it.
pub open spec fn opening_text(d: Document) -> Seq<char> {
    if d.marked {
        seq!['-', '-', '-'] + block::tree_text(d.tree, -1)
    } else {
        root_text(d.tree)
    }
}

/// The `...` behind a document.
pub open spec fn ending_text(d: Document) -> Seq<char> {
    match d.end {
        Some(r) => seq!['.', '.', '.'] + steps::rest_text(r),
        None => Seq::empty(),
    }
}

/// The documents from document `i` on.
pub open spec fn documents_text(ds: Seq<Document>, i: int) -> Seq<char>
    decreases ds.len() - i,
{
    if 0 <= i < ds.len() {
        opening_text(ds[i]) + (ending_text(ds[i]) + documents_text(ds, i + 1))
    } else {
        Seq::empty()
    }
}

/// The tokens of a document.
pub open spec fn document_lexemes(d: Document) -> Seq<Lexeme> {
    (if d.marked {
        seq![Lexeme::DocumentStart]
    } else {
        Seq::empty()
    }) + block::tree_lexemes(d.tree) + (if d.end is Some {
        seq![Lexeme::DocumentEnd]
    } else {
        Seq::empty()
    })
}

pub open spec fn documents_lexemes(ds: Seq<Document>, i: int) -> Seq<Lexeme>
    decreases ds.len() - i,
{
    if 0 <= i < ds.len() {
        document_lexemes(ds[i]) + documents_lexemes(ds, i + 1)
    } else {
        Seq::empty()
    }
}

/// The scanner is about to read what stands at `p`, the start of a line. Behind the last
/// token there is the rest of its line, or nothing was read yet.
spec fn arrives(text: Seq<char>, st: ScanState, r: Option<Rest>, p: int) -> bool {
    &&& model::inside(text, st)
    &&& steps::is_open(st)
    &&& steps::key_here(text, st)
    &&& match r {
        None => st.pos == p == 0 && st.key is None && st.key_allowed,
        Some(rest) => block::waits(text, st, p, rest),
    }
}

/// The start of the next token, or the end of the text.
proof fn lemma_arrive(text: Seq<char>, st: ScanState, r: Option<Rest>, p: int, n: nat) -> (at:
    ScanState)
    requires
        arrives(text, st, r, p),
        text.len() <= usize::MAX,
        leaf::holds(text, p, steps::spaces(n)),
        p + n == text.len() && (r is Some || n == 0) || words::token_starts(text, p + n),
    ensures
        model::after_gap(text, st) == Ok::<ScanState, Failure>(at),
        at == (ScanState {
            pos: p + n,
            key_allowed: true,
            at_line_start: false,
            key: None,
            ..st
        }),
        reader::column_at(text, p + n) == n + 1,
        p + n < text.len() ==> lex::indent_at(text, p + n) == n,
{
    match r {
        None => {
            if n < text.len() {
                steps::lemma_space_gap(text, st, n);
            }
            assert(words::is_line(steps::spaces(n)));
            steps::lemma_line_text(text, p, steps::spaces(n));
            steps::lemma_line(text, p, p + n);
            reader::lemma_counts(text, p + n);
        },
        Some(rest) => {
            steps::lemma_rest_gap(text, st, rest, n);
            block::lemma_rest_end(rest);
            block::lemma_column(text, st.pos, steps::rest_text(rest), n);
        },
    }
    model::after_gap(text, st)->Ok_0
}

/// The end of the text closes everything.
proof fn lemma_text_end(
    text: Seq<char>,
    limits: Limits,
    st: ScanState,
    r: Option<Rest>,
    ks: Seq<Lexeme>,
)
    requires
        arrives(text, st, r, text.len() as int),
        text.len() <= usize::MAX,
        block::pending(st, seq![-1], ks),
    ensures
        model::run(text, limits, st) matches Ok(last) && scan::kinds(last.out) == ks + seq![
            Lexeme::StreamEnd,
        ],
{
    let at = lemma_arrive(text, st, r, text.len() as int, 0);
    let col = lex::indent_at(text, at.pos);
    lex::lemma_column_positive(text, at.pos);
    assert(steps::stack(at) == steps::stack(st));
    block::lemma_unroll(text, at, seq![-1], ks, col);
    let level = model::unrolled(text, at, col);
    model::lemma_unrolled(text, at, col);
    let bare = ScanState { key: None, ..level };
    assert(steps::stack(bare) == steps::stack(level));
    block::lemma_unroll(text, bare, seq![-1], ks, -1);
    model::lemma_unrolled(text, bare, -1);
    let last = model::end_step(text, level)->Ok_0;
    assert(model::token_step(text, at) == Ok::<ScanState, Failure>(last));
    assert(model::fetch(text, limits, st) == Ok::<ScanState, Failure>(last));
    assert(model::run(text, limits, last) == Ok::<ScanState, Failure>(last));
    assert(scan::kinds(last.out) == ks + seq![Lexeme::StreamEnd]);
}

/// A leaf that stands alone.
proof fn lemma_root_leaf(
    text: Seq<char>,
    limits: Limits,
    st: ScanState,
    r: Option<Rest>,
    p: int,
    t: Tree,
    ks: Seq<Lexeme>,
    n: nat,
) -> (out: (ScanState, Option<Rest>))
    requires
        arrives(text, st, r, p),
        text.len() <= usize::MAX,
        block::has(st, seq![-1], ks),
        block::is_tree(t, Place::Root),
        leaf::holds(text, p, root_text(t)),
        block::follows(text, p + root_text(t).len(), n, -1),
        t is Leaf,
    ensures
        model::run(text, limits, st) == model::run(text, limits, out.0),
        arrives(text, out.0, out.1, p + root_text(t).len()),
        block::pending(out.0, seq![-1], ks + block::tree_lexemes(t)),
{
    let s: Seq<int> = seq![-1];
    let ps = t->Leaf_0;
    let rest = t->Leaf_1;
    block::lemma_has(st, s, ks);
    let body = steps::pieces_text(ps, 0);
    leaf::lemma_holds(text, p, body, steps::rest_text(rest));
    block::lemma_piece_starts(text, p, ps);
    assert(steps::spaces(0) == Seq::<char>::empty());
    let at = lemma_arrive(text, st, r, p, 0);
    assert(model::unrolled(text, at, lex::indent_at(text, at.pos)) == at);
    steps::lemma_rest_ends(text, p + body.len(), rest, n, -1);
    let next = steps::lemma_pieces(text, limits, st, at, ps);
    block::lemma_has(next, s, ks + block::tree_lexemes(t));
    (next, Some(rest))
}

/// A sequence that stands alone.
proof fn lemma_root_sequence(
    text: Seq<char>,
    limits: Limits,
    st: ScanState,
    r: Option<Rest>,
    p: int,
    t: Tree,
    ks: Seq<Lexeme>,
    n: nat,
) -> (out: (ScanState, Option<Rest>))
    requires
        arrives(text, st, r, p),
        text.len() <= usize::MAX,
        block::has(st, seq![-1], ks),
        block::is_tree(t, Place::Root),
        leaf::holds(text, p, root_text(t)),
        block::follows(text, p + root_text(t).len(), n, -1),
        t is Sequence,
    ensures
        model::run(text, limits, st) == model::run(text, limits, out.0),
        arrives(text, out.0, out.1, p + root_text(t).len()),
        block::pending(out.0, seq![-1], ks + block::tree_lexemes(t)),
{
    let s: Seq<int> = seq![-1];
    let l = t->Sequence_0;
    let items = t->Sequence_1;
    block::lemma_has(st, s, ks);
    let col = l.by - 1;
    let body = block::items_text(items, 0, col);
    assert(block::tree_text(t, -1) == block::lead_text(l, -1) + body);
    leaf::lemma_holds(text, p, block::lead_text(l, -1), body);
    assert(block::is_tree(items[0], Place::Item));
    block::lemma_item_head(text, p + col, items, 0, col);
    let at = lemma_arrive(text, st, r, p, col as nat);
    assert(steps::stack(at) == steps::stack(st));
    assert(model::unrolled(text, at, col) == at);
    let out = block::lemma_items(text, limits, st, at, items, 0, col, s, ks, n);
    let inner = block::items_lexemes(items, 0);
    block::lemma_closed(out.0, s, col, ks, l.by, Lexeme::BlockSequenceStart, inner);
    assert(block::tree_lexemes(t) == block::framed(l.by, Lexeme::BlockSequenceStart, inner));
    (out.0, Some(out.1))
}

/// A mapping that stands alone.
proof fn lemma_root_mapping(
    text: Seq<char>,
    limits: Limits,
    st: ScanState,
    r: Option<Rest>,
    p: int,
    t: Tree,
    ks: Seq<Lexeme>,
    n: nat,
) -> (out: (ScanState, Option<Rest>))
    requires
        arrives(text, st, r, p),
        text.len() <= usize::MAX,
        block::has(st, seq![-1], ks),
        block::is_tree(t, Place::Root),
        leaf::holds(text, p, root_text(t)),
        block::follows(text, p + root_text(t).len(), n, -1),
        t is Mapping,
    ensures
        model::run(text, limits, st) == model::run(text, limits, out.0),
        arrives(text, out.0, out.1, p + root_text(t).len()),
        block::pending(out.0, seq![-1], ks + block::tree_lexemes(t)),
{
    let s: Seq<int> = seq![-1];
    let l = t->Mapping_0;
    let entries = t->Mapping_1;
    block::lemma_has(st, s, ks);
    let col = l.by - 1;
    let body = block::entries_text(entries, 0, col);
    assert(block::tree_text(t, -1) == block::lead_text(l, -1) + body);
    leaf::lemma_holds(text, p, block::lead_text(l, -1), body);
    assert(block::is_key(entries[0].0));
    block::lemma_entry_head(text, p + col, entries, 0, col);
    block::lemma_piece_starts(text, p + col, entries[0].0);
    let at = lemma_arrive(text, st, r, p, col as nat);
    assert(steps::stack(at) == steps::stack(st));
    assert(model::unrolled(text, at, col) == at);
    let out = block::lemma_entries(text, limits, st, at, entries, 0, col, s, ks, n);
    let inner = block::entries_lexemes(entries, 0);
    block::lemma_closed(out.0, s, col, ks, l.by, Lexeme::BlockMappingStart, inner);
    assert(block::tree_lexemes(t) == block::framed(l.by, Lexeme::BlockMappingStart, inner));
    (out.0, Some(out.1))
}

/// A tree that stands alone.
proof fn lemma_root(
    text: Seq<char>,
    limits: Limits,
    st: ScanState,
    r: Option<Rest>,
    p: int,
    t: Tree,
    ks: Seq<Lexeme>,
    n: nat,
) -> (out: (ScanState, Option<Rest>))
    requires
        arrives(text, st, r, p),
        text.len() <= usize::MAX,
        block::has(st, seq![-1], ks),
        block::is_tree(t, Place::Root),
        leaf::holds(text, p, root_text(t)),
        block::follows(text, p + root_text(t).len(), n, -1),
        !(t is Empty),
    ensures
        model::run(text, limits, st) == model::run(text, limits, out.0),
        arrives(text, out.0, out.1, p + root_text(t).len()),
        block::pending(out.0, seq![-1], ks + block::tree_lexemes(t)),
{
    match t {
        Tree::Sequence(..) => lemma_root_sequence(text, limits, st, r, p, t, ks, n),
        Tree::Mapping(..) => lemma_root_mapping(text, limits, st, r, p, t, ks, n),
        _ => lemma_root_leaf(text, limits, st, r, p, t, ks, n),
    }
}

/// The characters of a marker.
spec fn dots(c: char) -> Seq<char> {
    seq![c, c, c]
}

/// A marker closes everything. Behind `...` the line must end.
proof fn lemma_marker(
    text: Seq<char>,
    limits: Limits,
    st: ScanState,
    r: Option<Rest>,
    p: int,
    c: char,
    ks: Seq<Lexeme>,
) -> (next: ScanState)
    requires
        arrives(text, st, r, p),
        text.len() <= usize::MAX,
        block::pending(st, seq![-1], ks),
        c == '-' || c == '.',
        leaf::holds(text, p, dots(c)),
        p + 3 < text.len(),
        text[p + 3] == ' ' || text[p + 3] == '\n',
        c == '.' ==> text[p + 3] == '\n' || p + 4 < text.len() && text[p + 4] == '#',
    ensures
        model::run(text, limits, st) == model::run(text, limits, next),
        steps::is_open(next),
        next.key is None,
        next.key_allowed,
        next.pos == p + 3,
        reader::column_at(text, p + 3) == 4,
        block::has(
            next,
            seq![-1],
            ks + seq![
                if c == '-' {
                    Lexeme::DocumentStart
                } else {
                    Lexeme::DocumentEnd
                },
            ],
        ),
{
    assert(steps::spaces(0) == Seq::<char>::empty());
    assert(text[p + 0] == dots(c)[0] && text[p + 1] == dots(c)[1] && text[p + 2] == dots(c)[2]);
    let at = lemma_arrive(text, st, r, p, 0);
    assert(steps::stack(at) == steps::stack(st));
    block::lemma_unroll(text, at, seq![-1], ks, 0);
    let level = model::unrolled(text, at, 0);
    model::lemma_unrolled(text, at, 0);
    let marked = model::key_marked(text, level);
    assert(steps::stack(marked) == steps::stack(level));
    block::lemma_unroll(text, marked, seq![-1], ks, -1);
    model::lemma_unrolled(text, marked, -1);
    if c == '.' {
        let e = if text[p + 3] == '\n' {
            p + 3
        } else {
            p + 4
        };
        lex::lemma_run_is(lex::Run::Spaces, text, p + 3, e);
    }
    let out = model::content(text, marked)->Ok_0;
    assert(model::content(text, marked) == Ok::<Produced, Failure>(out));
    let next = model::token_added(text, at.pos, out)->Ok_0;
    assert(model::token_step(text, at) == Ok::<ScanState, Failure>(next));
    assert(model::fetch(text, limits, st) == Ok::<ScanState, Failure>(next));
    let closed = model::unrolled(text, marked, -1);
    block::lemma_has(closed, seq![-1], ks);
    assert(scan::kinds(next.out) == ks + seq![out.tok.kind]);
    assert(steps::stack(next) == steps::stack(closed));
    steps::lemma_line(text, p, p + 3);
    next
}

/// What stands behind a document.
proof fn lemma_behind(text: Seq<char>, e: int, ds: Seq<Document>, i: int)
    requires
        are_documents(ds),
        0 <= i < ds.len(),
        leaf::holds(text, e, ending_text(ds[i]) + documents_text(ds, i + 1)),
        text.len() == e + (ending_text(ds[i]) + documents_text(ds, i + 1)).len(),
    ensures
        block::follows(text, e, 0, -1),
{
    let tail = ending_text(ds[i]) + documents_text(ds, i + 1);
    assert(is_document(ds[i]));
    if let Some(r) = ds[i].end {
        block::lemma_rest_end(r);
        assert(tail[3] == steps::rest_text(r)[0]);
        assert(tail[0] == '.' && tail[1] == '.' && tail[2] == '.');
        assert(text[e + 0] == tail[0] && text[e + 1] == tail[1] && text[e + 2] == tail[2] && text[e
            + 3] == tail[3]);
        assert(lex::marker_at(text, e, '.'));
    } else if i + 1 < ds.len() {
        let d = ds[i + 1];
        assert(is_document(d) && d.marked);
        let t = block::tree_text(d.tree, -1);
        block::lemma_tree_ends(d.tree, -1, Place::Document);
        assert(tail == opening_text(d) + (ending_text(d) + documents_text(ds, i + 2)));
        assert(opening_text(d)[3] == t[0]);
        assert(tail[3] == t[0]);
        assert(tail[0] == '-' && tail[1] == '-' && tail[2] == '-');
        assert(text[e + 0] == tail[0] && text[e + 1] == tail[1] && text[e + 2] == tail[2] && text[e
            + 3] == tail[3]);
        assert(lex::marker_at(text, e, '-'));
    } else {
        assert(tail.len() == 0);
    }
}

/// The tree of a document with the `---` before it.
proof fn lemma_opening(
    text: Seq<char>,
    limits: Limits,
    st: ScanState,
    r: Option<Rest>,
    p: int,
    d: Document,
    ks: Seq<Lexeme>,
) -> (out: (ScanState, Option<Rest>))
    requires
        arrives(text, st, r, p),
        text.len() <= usize::MAX,
        is_document(d),
        block::pending(st, seq![-1], ks),
        !d.marked ==> block::has(st, seq![-1], ks),
        leaf::holds(text, p, opening_text(d)),
        block::follows(text, p + opening_text(d).len(), 0, -1),
    ensures
        model::run(text, limits, st) == model::run(text, limits, out.0),
        arrives(text, out.0, out.1, p + opening_text(d).len()),
        out.1 is Some,
        block::pending(
            out.0,
            seq![-1],
            ks + (if d.marked {
                seq![Lexeme::DocumentStart]
            } else {
                Seq::empty()
            }) + block::tree_lexemes(d.tree),
        ),
{
    let t = d.tree;
    if d.marked {
        leaf::lemma_holds(text, p, dots('-'), block::tree_text(t, -1));
        block::lemma_tree_ends(t, -1, Place::Document);
        assert(text[p + 3 + 0] == block::tree_text(t, -1)[0]);
        let begun = lemma_marker(text, limits, st, r, p, '-', ks);
        let ks1 = ks + seq![Lexeme::DocumentStart];
        let out = block::lemma_tree(text, limits, begun, t, -1, Place::Document, seq![-1], ks1, 0);
        (out.0, Some(out.1))
    } else {
        assert(ks + Seq::<Lexeme>::empty() == ks);
        lemma_root(text, limits, st, r, p, t, ks, 0)
    }
}

proof fn lemma_documents_sum(ds: Seq<Document>, i: int, ks: Seq<Lexeme>)
    requires
        0 <= i < ds.len(),
    ensures
        ({
            let d = ds[i];
            let start = if d.marked {
                seq![Lexeme::DocumentStart]
            } else {
                Seq::empty()
            };
            let ks1 = ks + start + block::tree_lexemes(d.tree);
            let ks2 = if d.end is Some {
                ks1 + seq![Lexeme::DocumentEnd]
            } else {
                ks1
            };
            ks2 + documents_lexemes(ds, i + 1) == ks + documents_lexemes(ds, i)
        }),
{
    let d = ds[i];
    let next = documents_lexemes(ds, i + 1);
    assert(documents_lexemes(ds, i) == document_lexemes(d) + next);
    if d.end is Some {
    } else {
        assert(document_lexemes(d) + next == (if d.marked {
            seq![Lexeme::DocumentStart]
        } else {
            Seq::empty()
        }) + block::tree_lexemes(d.tree) + next);
    }
}

/// Documents from document `i` on, and the end of the text.
#[verifier::rlimit(100)]
#[verifier::spinoff_prover]
proof fn lemma_documents(
    text: Seq<char>,
    limits: Limits,
    st: ScanState,
    r: Option<Rest>,
    p: int,
    ds: Seq<Document>,
    i: int,
    ks: Seq<Lexeme>,
)
    requires
        arrives(text, st, r, p),
        text.len() <= usize::MAX,
        are_documents(ds),
        0 <= i <= ds.len(),
        block::pending(st, seq![-1], ks),
        i < ds.len() && !ds[i].marked ==> block::has(st, seq![-1], ks),
        leaf::holds(text, p, documents_text(ds, i)),
        text.len() == p + documents_text(ds, i).len(),
    ensures
        model::run(text, limits, st) matches Ok(last) && scan::kinds(last.out) == ks
            + documents_lexemes(ds, i) + seq![Lexeme::StreamEnd],
    decreases ds.len() - i,
{
    if i == ds.len() {
        assert(ks + documents_lexemes(ds, i) == ks);
        lemma_text_end(text, limits, st, r, ks);
    } else {
        let d = ds[i];
        assert(is_document(d));
        let next = documents_text(ds, i + 1);
        let tail = ending_text(d) + next;
        let e = p + opening_text(d).len();
        assert(documents_text(ds, i) == opening_text(d) + tail);
        leaf::lemma_holds(text, p, opening_text(d), tail);
        leaf::lemma_holds(text, e, ending_text(d), next);
        lemma_behind(text, e, ds, i);
        let (mid, rest) = lemma_opening(text, limits, st, r, p, d, ks);
        let start = if d.marked {
            seq![Lexeme::DocumentStart]
        } else {
            Seq::empty()
        };
        let ks1 = ks + start + block::tree_lexemes(d.tree);
        lemma_documents_sum(ds, i, ks);
        match d.end {
            None => {
                if i + 1 < ds.len() {
                    assert(ds[i + 1].marked);
                }
                lemma_documents(text, limits, mid, rest, e, ds, i + 1, ks1);
            },
            Some(line) => {
                leaf::lemma_holds(text, e, dots('.'), steps::rest_text(line));
                lemma_line_start(text, e + 3, line);
                let done = lemma_marker(text, limits, mid, rest, e, '.', ks1);
                let ks2 = ks1 + seq![Lexeme::DocumentEnd];
                block::lemma_has(done, seq![-1], ks2);
                let q = e + ending_text(d).len();
                lemma_documents(text, limits, done, Some(line), q, ds, i + 1, ks2);
            },
        }
    }
}

/// The rest of a line begins with a line break, or with a space and a comment.
proof fn lemma_line_start(text: Seq<char>, i: int, r: Rest)
    requires
        leaf::holds(text, i, steps::rest_text(r)),
    ensures
        i < text.len(),
        text[i] == '\n' || text[i] == ' ' && i + 1 < text.len() && text[i + 1] == '#',
{
    let t = steps::rest_text(r);
    block::lemma_rest_end(r);
    assert(text[i + 0] == t[0]);
    if r.note is Some {
        assert(t[1] == '#');
        assert(text[i + 1] == t[1]);
    } else {
        assert(t[0] == '\n');
    }
}

/// The first token.
proof fn lemma_begin(text: Seq<char>, limits: Limits) -> (st: ScanState)
    requires
        reader::byte_offset(text, text.len() as int) <= limits.max_input_bytes,
    ensures
        model::run(text, limits, model::initial_state()) == model::run(text, limits, st),
        arrives(text, st, None, 0),
        text.len() <= usize::MAX,
        block::has(st, seq![-1], seq![Lexeme::StreamStart]),
{
    let first = model::initial_state();
    let st = model::start(text, limits, first)->Ok_0;
    reader::lemma_counts(text, text.len() as int);
    assert(model::fetch(text, limits, first) == Ok::<ScanState, Failure>(st));
    assert(scan::kinds(st.out) == seq![Lexeme::StreamStart]);
    assert(steps::stack(st) == seq![-1int]);
    st
}

// ---------------------------------------------------------------------------
// Laws
// ---------------------------------------------------------------------------

/// Every text that is written as documents of block collections is scanned as the tokens of
/// those documents: each mapping and each sequence begins and ends where its indentation
/// says, each key stands behind a `Key` and before a `Value` whatever quotes it has, and each
/// scalar is the string that its text stands for.
pub proof fn law_block_texts_are_scanned(ds: Seq<Document>, limits: Limits)
    requires
        are_documents(ds),
        ({
            let text = documents_text(ds, 0);
            reader::byte_offset(text, text.len() as int) <= limits.max_input_bytes
        }),
    ensures
        model::tokens(documents_text(ds, 0), limits) matches Ok(ts) && scan::kinds(ts) == seq![
            Lexeme::StreamStart,
        ] + documents_lexemes(ds, 0) + seq![Lexeme::StreamEnd],
{
    let text = documents_text(ds, 0);
    let st = lemma_begin(text, limits);
    block::lemma_has(st, seq![-1], seq![Lexeme::StreamStart]);
    lemma_documents(text, limits, st, None, 0, ds, 0, seq![Lexeme::StreamStart]);
}

/// A scalar of any style on a line of its own, with its properties, is a document: its tokens
/// are those of the scalar, and so a quoted string is read as the string that was quoted.
pub proof fn law_scalars_are_scanned(ps: Seq<Piece>, limits: Limits)
    requires
        block::is_leaf(ps),
        ({
            let text = steps::pieces_text(ps, 0);
            reader::byte_offset(text, text.len() as int) <= limits.max_input_bytes
        }),
    ensures
        model::tokens(steps::pieces_text(ps, 0), limits) matches Ok(ts) && scan::kinds(ts)
            == seq![Lexeme::StreamStart] + steps::pieces_lexemes(ps, 0) + seq![Lexeme::StreamEnd],
{
    let text = steps::pieces_text(ps, 0);
    let s: Seq<int> = seq![-1];
    let ks = seq![Lexeme::StreamStart];
    let st = lemma_begin(text, limits);
    block::lemma_has(st, s, ks);
    block::lemma_piece_starts(text, 0, ps);
    assert(steps::spaces(0) == Seq::<char>::empty());
    let at = lemma_arrive(text, st, None, 0, 0);
    assert(model::unrolled(text, at, lex::indent_at(text, at.pos)) == at);
    let next = steps::lemma_pieces(text, limits, st, at, ps);
    block::lemma_has(next, s, ks + steps::pieces_lexemes(ps, 0));
    lemma_last_word(text, limits, next, ks + steps::pieces_lexemes(ps, 0));
}

/// A key of any style, a colon and a space, and a value of any style are a mapping of one
/// entry.
pub proof fn law_pairs_are_scanned(key: Seq<Piece>, value: Seq<Piece>, limits: Limits)
    requires
        block::is_key(key),
        block::is_leaf(value),
        ({
            let text = steps::pieces_text(key, 0) + seq![':', ' '] + steps::pieces_text(value, 0);
            reader::byte_offset(text, text.len() as int) <= limits.max_input_bytes
        }),
    ensures
        ({
            let text = steps::pieces_text(key, 0) + seq![':', ' '] + steps::pieces_text(value, 0);
            model::tokens(text, limits) matches Ok(ts) && scan::kinds(ts) == seq![
                Lexeme::StreamStart,
                Lexeme::BlockMappingStart,
                Lexeme::Key,
            ] + steps::pieces_lexemes(key, 0) + seq![Lexeme::Value] + steps::pieces_lexemes(
                value,
                0,
            ) + seq![Lexeme::BlockEnd, Lexeme::StreamEnd]
        }),
{
    let k = steps::pieces_text(key, 0);
    let v = steps::pieces_text(value, 0);
    let text = k + seq![':', ' '] + v;
    let s: Seq<int> = seq![-1];
    let ks = seq![Lexeme::StreamStart];
    lemma_pair_text(text, k, v);
    let st = lemma_begin(text, limits);
    block::lemma_has(st, s, ks);
    block::lemma_piece_starts(text, 0, key);
    assert(steps::spaces(0) == Seq::<char>::empty());
    let at = lemma_arrive(text, st, None, 0, 0);
    assert(model::unrolled(text, at, 0) == at);
    let begun = block::lemma_key(text, limits, st, at, key, 0, s, ks);
    lemma_pair_value(text, limits, begun, key, value);
    lemma_pair_sum(steps::pieces_lexemes(key, 0), steps::pieces_lexemes(value, 0));
}

/// Where the parts of a pair stand.
proof fn lemma_pair_text(text: Seq<char>, k: Seq<char>, v: Seq<char>)
    requires
        text == k + seq![':', ' '] + v,
    ensures
        leaf::holds(text, 0, k),
        text[k.len() as int] == ':',
        text[k.len() + 1int] == ' ',
        leaf::holds(text, k.len() + 1int, seq![' '] + v),
{
    assert(text == k + (seq![':'] + (seq![' '] + v)));
    assert(leaf::holds(text, 0, text));
    leaf::lemma_holds(text, 0, k, seq![':'] + (seq![' '] + v));
    leaf::lemma_holds(text, k.len() as int, seq![':'], seq![' '] + v);
}

/// The tokens of a pair.
spec fn pair_lexemes(key: Seq<Lexeme>, value: Seq<Lexeme>) -> Seq<Lexeme> {
    seq![Lexeme::Key] + key + seq![Lexeme::Value] + value
}

proof fn lemma_pair_sum(key: Seq<Lexeme>, value: Seq<Lexeme>)
    ensures
        seq![Lexeme::StreamStart] + block::framed(1, Lexeme::BlockMappingStart, pair_lexemes(key, value))
            + seq![Lexeme::StreamEnd] == seq![
            Lexeme::StreamStart,
            Lexeme::BlockMappingStart,
            Lexeme::Key,
        ] + key + seq![Lexeme::Value] + value + seq![Lexeme::BlockEnd, Lexeme::StreamEnd],
{
}

/// The value of a pair, and the end of the text.
proof fn lemma_pair_value(
    text: Seq<char>,
    limits: Limits,
    st: ScanState,
    key: Seq<Piece>,
    value: Seq<Piece>,
)
    requires
        model::inside(text, st),
        steps::is_open(st),
        st.key is None,
        text.len() <= usize::MAX,
        block::is_leaf(value),
        leaf::holds(text, st.pos, seq![' '] + steps::pieces_text(value, 0)),
        text.len() == st.pos + 1 + steps::pieces_text(value, 0).len(),
        reader::column_at(text, st.pos) >= 2,
        block::has(
            st,
            block::opened(seq![-1], 0),
            seq![Lexeme::StreamStart] + block::opening(seq![-1], 0, Lexeme::BlockMappingStart) + seq![
                Lexeme::Key,
            ] + steps::pieces_lexemes(key, 0) + seq![Lexeme::Value],
        ),
    ensures
        model::run(text, limits, st) matches Ok(last) && scan::kinds(last.out) == seq![
            Lexeme::StreamStart,
        ] + block::framed(
            1,
            Lexeme::BlockMappingStart,
            pair_lexemes(steps::pieces_lexemes(key, 0), steps::pieces_lexemes(value, 0)),
        ) + seq![Lexeme::StreamEnd],
{
    let s: Seq<int> = seq![-1];
    let ks = seq![Lexeme::StreamStart];
    let start = Lexeme::BlockMappingStart;
    let ls = steps::pieces_lexemes(key, 0);
    let vs = steps::pieces_lexemes(value, 0);
    let ks1 = ks + block::opening(s, 0, start) + seq![Lexeme::Key] + ls + seq![Lexeme::Value];
    let o = block::opened(s, 0);
    let next = block::lemma_spaced_pieces(text, limits, st, value, o, ks1);
    block::lemma_has(next, o, ks1 + vs);
    assert(ks1 + vs == ks + block::opening(s, 0, start) + pair_lexemes(ls, vs));
    block::lemma_closed(next, s, 0, ks, 1, start, pair_lexemes(ls, vs));
    lemma_last_word(text, limits, next, ks + block::framed(1, start, pair_lexemes(ls, vs)));
}

/// The text ends with the last word.
proof fn lemma_last_word(text: Seq<char>, limits: Limits, st: ScanState, ks: Seq<Lexeme>)
    requires
        steps::is_open(st),
        steps::key_here(text, st),
        st.pos == text.len() <= usize::MAX,
        block::pending(st, seq![-1], ks),
    ensures
        model::run(text, limits, st) matches Ok(last) && scan::kinds(last.out) == ks + seq![
            Lexeme::StreamEnd,
        ],
{
    let at = model::after_gap(text, st)->Ok_0;
    assert(at == (ScanState { at_line_start: false, key: at.key, ..st }));
    let col = lex::indent_at(text, at.pos);
    lex::lemma_column_positive(text, at.pos);
    assert(steps::stack(at) == steps::stack(st));
    block::lemma_unroll(text, at, seq![-1], ks, col);
    let level = model::unrolled(text, at, col);
    model::lemma_unrolled(text, at, col);
    let bare = ScanState { key: None, ..level };
    assert(steps::stack(bare) == steps::stack(level));
    block::lemma_unroll(text, bare, seq![-1], ks, -1);
    model::lemma_unrolled(text, bare, -1);
    let last = model::end_step(text, level)->Ok_0;
    assert(model::token_step(text, at) == Ok::<ScanState, Failure>(last));
    assert(model::fetch(text, limits, st) == Ok::<ScanState, Failure>(last));
    assert(model::run(text, limits, last) == Ok::<ScanState, Failure>(last));
    assert(scan::kinds(last.out) == ks + seq![Lexeme::StreamEnd]);
}

} // verus!
