//! Block collections: a tree of mappings and sequences, written line by line, is scanned as
//! the tokens of the tree.

use crate::options::Limits;
use crate::reading::steps;
use crate::reading::steps::Rest;
use crate::reading::words;
use crate::reading::words::Piece;
use crate::roundtrip::leaf;
use crate::roundtrip::scan;
use crate::scanner::lex;
use crate::scanner::model;
use crate::scanner::model::{Failure, KeyMark, Produced, ScanState};
use crate::scanner::reader;
use crate::scanner::token::{Lexeme, Tok};
use vstd::prelude::*;

verus! {

// ---------------------------------------------------------------------------
// Trees
// ---------------------------------------------------------------------------

/// How a collection is laid out behind the indicator that introduces it.
pub struct Layout {
    /// The properties in front of it, on the line of the indicator.
    pub props: Seq<Piece>,
    /// The end of that line.
    pub rest: Rest,
    /// How many columns deeper it is than the collection around it.
    pub by: nat,
    /// It begins on the line of the indicator.
    pub inline: bool,
}

/// What a block text says.
pub enum Tree {
    /// A scalar or an alias with its properties.
    Leaf(Seq<Piece>, Rest),
    /// Nothing.
    Empty(Rest),
    Sequence(Layout, Seq<Tree>),
    Mapping(Layout, Seq<(Seq<Piece>, Tree)>),
}

/// Where a tree stands: alone, behind a `---`, behind a `-`, or behind a key and its `:`.
pub enum Place {
    Root,
    Document,
    Item,
    Value,
}

/// A scalar or an alias with its properties.
pub open spec fn is_leaf(ps: Seq<Piece>) -> bool {
    &&& steps::are_pieces(ps)
    &&& ps[ps.len() - 1] is Word || ps[ps.len() - 1] is Alias && ps.len() == 1
}

/// A leaf that can be a key.
pub open spec fn is_key(ps: Seq<Piece>) -> bool {
    is_leaf(ps) && steps::begins_key(words::piece_text(ps[0])[0])
}

/// A layout that fits its place. A sequence that is a value may be as deep as the mapping.
pub open spec fn is_layout(l: Layout, place: Place, sequence: bool) -> bool {
    if l.inline {
        &&& l.props.len() == 0
        &&& match place {
            Place::Root => l.by >= 1,
            Place::Item => l.by >= 2,
            _ => false,
        }
    } else {
        &&& !(place is Root)
        &&& steps::is_rest(l.rest)
        &&& l.props.len() == 0 || steps::are_pieces(l.props) && steps::is_property(
            l.props[l.props.len() - 1],
        )
        &&& l.by >= 1 || sequence && place is Value
    }
}

/// A tree that is laid out as it should be.
pub open spec fn is_tree(t: Tree, place: Place) -> bool
    decreases t,
{
    match t {
        Tree::Leaf(ps, r) => is_leaf(ps) && steps::is_rest(r),
        Tree::Empty(r) => steps::is_rest(r),
        Tree::Sequence(l, items) => {
            &&& is_layout(l, place, true)
            &&& items.len() > 0
            &&& forall|i: int| 0 <= i < items.len() ==> is_tree(#[trigger] items[i], Place::Item)
        },
        Tree::Mapping(l, entries) => {
            &&& is_layout(l, place, false)
            &&& entries.len() > 0
            &&& forall|i: int|
                0 <= i < entries.len() ==> is_key((#[trigger] entries[i]).0) && is_tree(
                    entries[i].1,
                    Place::Value,
                )
        },
    }
}

/// What stands between the indicator at column `c` and the first line of the collection.
pub open spec fn lead_text(l: Layout, c: int) -> Seq<char> {
    if l.inline {
        steps::spaces((l.by - 1) as nat)
    } else {
        props_text(l.props) + (steps::rest_text(l.rest) + steps::spaces((c + l.by) as nat))
    }
}

pub open spec fn props_text(props: Seq<Piece>) -> Seq<char> {
    if props.len() == 0 {
        Seq::empty()
    } else {
        seq![' '] + steps::pieces_text(props, 0)
    }
}

/// A tree as it is written behind an indicator of the collection at column `c`.
pub open spec fn tree_text(t: Tree, c: int) -> Seq<char>
    decreases t, 0int,
{
    match t {
        Tree::Leaf(ps, r) => seq![' '] + (steps::pieces_text(ps, 0) + steps::rest_text(r)),
        Tree::Empty(r) => steps::rest_text(r),
        Tree::Sequence(l, items) => lead_text(l, c) + items_text(items, 0, c + l.by),
        Tree::Mapping(l, entries) => lead_text(l, c) + entries_text(entries, 0, c + l.by),
    }
}

/// The items of a sequence at column `col` from item `i` on. The first stands there already.
pub open spec fn items_text(items: Seq<Tree>, i: int, col: int) -> Seq<char>
    decreases items, items.len() - i,
{
    if 0 <= i < items.len() {
        seq!['-'] + (tree_text(items[i], col) + if i + 1 < items.len() {
            steps::spaces(col as nat) + items_text(items, i + 1, col)
        } else {
            Seq::empty()
        })
    } else {
        Seq::empty()
    }
}

/// The entries of a mapping at column `col` from entry `i` on. The first stands there
/// already.
pub open spec fn entries_text(entries: Seq<(Seq<Piece>, Tree)>, i: int, col: int) -> Seq<char>
    decreases entries, entries.len() - i,
{
    if 0 <= i < entries.len() {
        steps::pieces_text(entries[i].0, 0) + (seq![':'] + (tree_text(entries[i].1, col) + if i + 1
            < entries.len() {
            steps::spaces(col as nat) + entries_text(entries, i + 1, col)
        } else {
            Seq::empty()
        }))
    } else {
        Seq::empty()
    }
}

/// The tokens around a collection `by` columns deeper than the one around it.
pub open spec fn framed(by: nat, start: Lexeme, inner: Seq<Lexeme>) -> Seq<Lexeme> {
    if by > 0 {
        seq![start] + inner + seq![Lexeme::BlockEnd]
    } else {
        inner
    }
}

/// The tokens of a tree.
pub open spec fn tree_lexemes(t: Tree) -> Seq<Lexeme>
    decreases t, 0int,
{
    match t {
        Tree::Leaf(ps, _) => steps::pieces_lexemes(ps, 0),
        Tree::Empty(_) => Seq::empty(),
        Tree::Sequence(l, items) => steps::pieces_lexemes(l.props, 0) + framed(
            l.by,
            Lexeme::BlockSequenceStart,
            items_lexemes(items, 0),
        ),
        Tree::Mapping(l, entries) => steps::pieces_lexemes(l.props, 0) + framed(
            l.by,
            Lexeme::BlockMappingStart,
            entries_lexemes(entries, 0),
        ),
    }
}

pub open spec fn items_lexemes(items: Seq<Tree>, i: int) -> Seq<Lexeme>
    decreases items, items.len() - i,
{
    if 0 <= i < items.len() {
        seq![Lexeme::BlockEntry] + tree_lexemes(items[i]) + items_lexemes(items, i + 1)
    } else {
        Seq::empty()
    }
}

pub open spec fn entries_lexemes(entries: Seq<(Seq<Piece>, Tree)>, i: int) -> Seq<Lexeme>
    decreases entries, entries.len() - i,
{
    if 0 <= i < entries.len() {
        seq![Lexeme::Key] + steps::pieces_lexemes(entries[i].0, 0) + seq![Lexeme::Value]
            + tree_lexemes(entries[i].1) + entries_lexemes(entries, i + 1)
    } else {
        Seq::empty()
    }
}

// ---------------------------------------------------------------------------
// States
// ---------------------------------------------------------------------------

/// `n` ends of block collections.
pub open spec fn ends(n: nat) -> Seq<Lexeme> {
    Seq::new(n, |i: int| Lexeme::BlockEnd)
}

/// Exactly the collections at the columns `s` are open, and the tokens are `ks`.
pub open spec fn has(st: ScanState, s: Seq<int>, ks: Seq<Lexeme>) -> bool {
    steps::stack(st) == s && scan::kinds(st.out) == ks
}

/// With the collections deeper than `s` closed, the tokens are `ks`.
pub open spec fn pending(st: ScanState, s: Seq<int>, ks: Seq<Lexeme>) -> bool {
    let all = steps::stack(st);
    &&& 0 < s.len() <= all.len()
    &&& all.take(s.len() as int) == s
    &&& forall|i: int| s.len() <= i < all.len() ==> #[trigger] all[i] > s.last()
    &&& scan::kinds(st.out) + ends((all.len() - s.len()) as nat) == ks
}

/// The rest of a line stands here, and `end` is behind it.
pub open spec fn waits(text: Seq<char>, st: ScanState, end: int, r: Rest) -> bool {
    &&& steps::is_rest(r)
    &&& leaf::holds(text, st.pos, steps::rest_text(r))
    &&& end == st.pos + steps::rest_text(r).len()
}

/// Behind `n` spaces the text ends, or a token begins that is a marker or no deeper than
/// `col`.
pub open spec fn follows(text: Seq<char>, end: int, n: nat, col: int) -> bool {
    &&& leaf::holds(text, end, steps::spaces(n))
    &&& end + n == text.len() || words::token_starts(text, end + n) && (lex::indent_at(
        text,
        end + n,
    ) <= col || lex::any_marker_at(text, end + n))
}

/// Closing collections down to `col` leaves the ones that are no deeper.
pub proof fn lemma_unroll(text: Seq<char>, st: ScanState, s: Seq<int>, ks: Seq<Lexeme>, col: int)
    requires
        pending(st, s, ks),
        st.flow_depth == 0,
        -1 <= col,
        s.last() <= col,
    ensures
        pending(model::unrolled(text, st, col), s, ks),
        model::unrolled(text, st, col).indent <= col,
        col == s.last() ==> has(model::unrolled(text, st, col), s, ks),
        has(st, s, ks) ==> model::unrolled(text, st, col) == st,
    decreases st.indents.len(),
{
    let all = steps::stack(st);
    assert(all.last() == st.indent);
    assert(all[all.len() - 1] == st.indent);
    if st.indent > col {
        if all.len() == s.len() {
            assert(all.take(s.len() as int) == all);
        }
        let t = model::tok(text, Lexeme::BlockEnd, st.pos, st.pos);
        let popped = ScanState {
            indent: st.indents.last(),
            indents: st.indents.drop_last(),
            out: st.out.push(t),
            ..st
        };
        assert(steps::stack(popped) == all.drop_last());
        assert(all.drop_last().take(s.len() as int) == s);
        let n = (all.len() - s.len()) as nat;
        assert(scan::kinds(popped.out) + ends((n - 1) as nat) == scan::kinds(st.out) + ends(n));
        assert forall|i: int| s.len() <= i < steps::stack(popped).len() implies
            #[trigger] steps::stack(popped)[i] > s.last() by {
            assert(steps::stack(popped)[i] == all[i]);
        }
        lemma_unroll(text, popped, s, ks, col);
        assert(model::unrolled(text, st, col) == model::unrolled(text, popped, col));
    } else if col == s.last() {
        assert(all.len() == s.len());
        assert(all.take(s.len() as int) == all);
        assert(scan::kinds(st.out) + ends(0) == scan::kinds(st.out));
    }
}

/// What is exactly so is so with nothing to close.
pub proof fn lemma_has(st: ScanState, s: Seq<int>, ks: Seq<Lexeme>)
    requires
        has(st, s, ks),
    ensures
        pending(st, s, ks),
        st.indent == s.last(),
        st.out.len() == ks.len(),
        s.len() > 0,
{
    assert(s.take(s.len() as int) == s);
    assert(scan::kinds(st.out) + ends(0) == scan::kinds(st.out));
}

/// The collections once one at `col` is open.
pub open spec fn opened(s: Seq<int>, col: int) -> Seq<int> {
    if s.last() < col {
        s.push(col)
    } else {
        s
    }
}

/// The token that opens it.
pub open spec fn opening(s: Seq<int>, col: int, start: Lexeme) -> Seq<Lexeme> {
    if s.last() < col {
        seq![start]
    } else {
        Seq::empty()
    }
}

/// A collection that is closed with what it holds.
pub proof fn lemma_closed(
    st: ScanState,
    s: Seq<int>,
    col: int,
    ks: Seq<Lexeme>,
    by: nat,
    start: Lexeme,
    inner: Seq<Lexeme>,
)
    requires
        s.len() > 0,
        col == s.last() + by,
        pending(st, opened(s, col), ks + opening(s, col, start) + inner),
    ensures
        pending(st, s, ks + framed(by, start, inner)),
{
    let all = steps::stack(st);
    let o = opened(s, col);
    if by > 0 {
        assert(all.take(s.len() as int) == o.take(s.len() as int));
        assert(o.take(s.len() as int) == s);
        assert(all[s.len() as int] == o[s.len() as int]);
        let n = (all.len() - o.len()) as nat;
        assert(ends(n + 1) == ends(n) + seq![Lexeme::BlockEnd]);
        let end = seq![Lexeme::BlockEnd];
        assert(scan::kinds(st.out) + (ends(n) + end) == scan::kinds(st.out) + ends(n) + end);
        assert(ks + seq![start] + inner + end == ks + (seq![start] + inner + end));
    } else {
        assert(ks + opening(s, col, start) + inner == ks + inner);
    }
}

// ---------------------------------------------------------------------------
// Indicators
// ---------------------------------------------------------------------------

/// A `-` behind a gap.
proof fn lemma_dash(
    text: Seq<char>,
    limits: Limits,
    st: ScanState,
    at: ScanState,
    s: Seq<int>,
    ks: Seq<Lexeme>,
) -> (next: ScanState)
    requires
        model::inside(text, st),
        steps::is_open(st),
        steps::is_open(at),
        at.key is None,
        at.key_allowed,
        model::after_gap(text, st) == Ok::<ScanState, Failure>(at),
        at.pos + 1 < text.len(),
        text[at.pos] == '-',
        text[at.pos + 1] == ' ' || text[at.pos + 1] == '\n',
        has(model::unrolled(text, at, lex::indent_at(text, at.pos)), s, ks),
    ensures
        model::run(text, limits, st) == model::run(text, limits, next),
        steps::is_open(next),
        next.key is None,
        next.key_allowed,
        next.pos == at.pos + 1,
        has(
            next,
            opened(s, lex::indent_at(text, at.pos)),
            ks + opening(s, lex::indent_at(text, at.pos), Lexeme::BlockSequenceStart) + seq![
                Lexeme::BlockEntry,
            ],
        ),
{
    let col = lex::indent_at(text, at.pos);
    let level = model::unrolled(text, at, col);
    model::lemma_unrolled(text, at, col);
    lemma_has(level, s, ks);
    let p = model::block_entry(text, level)->Ok_0;
    assert(model::content(text, level) == Ok::<Produced, Failure>(p));
    let next = model::token_added(text, at.pos, p)->Ok_0;
    assert(model::token_step(text, at) == Ok::<ScanState, Failure>(next));
    assert(model::fetch(text, limits, st) == Ok::<ScanState, Failure>(next));
    assert(scan::kinds(next.out) == ks + opening(s, col, Lexeme::BlockSequenceStart) + seq![
        Lexeme::BlockEntry,
    ]);
    assert(steps::stack(next) == opened(s, col));
    next
}

proof fn lemma_insert(out: Seq<Tok>, t: Tok, ks: Seq<Lexeme>, ls: Seq<Lexeme>)
    requires
        scan::kinds(out) == ks + ls,
    ensures
        scan::kinds(out.insert(ks.len() as int, t)) == ks + seq![t.kind] + ls,
        out.insert(ks.len() as int, t).len() == out.len() + 1,
{
    assert(scan::kinds(out).len() == out.len());
    assert(scan::kinds(out.insert(ks.len() as int, t)) =~= scan::kinds(out).insert(
        ks.len() as int,
        t.kind,
    ));
    assert((ks + ls).insert(ks.len() as int, t.kind) =~= ks + seq![t.kind] + ls);
}

/// A `:` right behind a marked key.
proof fn lemma_colon(
    text: Seq<char>,
    limits: Limits,
    st: ScanState,
    k: KeyMark,
    s: Seq<int>,
    ks: Seq<Lexeme>,
    ls: Seq<Lexeme>,
) -> (next: ScanState)
    requires
        model::inside(text, st),
        steps::is_open(st),
        steps::key_here(text, st),
        st.key == Some(k),
        k.number == ks.len(),
        text.len() <= usize::MAX,
        st.pos + 1 < text.len(),
        text[st.pos] == ':',
        text[st.pos + 1] == ' ' || text[st.pos + 1] == '\n',
        has(st, s, ks + ls),
        s.last() <= lex::indent_at(text, k.at),
    ensures
        model::run(text, limits, st) == model::run(text, limits, next),
        steps::is_open(next),
        next.key is None,
        next.pos == st.pos + 1,
        has(
            next,
            opened(s, lex::indent_at(text, k.at)),
            ks + opening(s, lex::indent_at(text, k.at), Lexeme::BlockMappingStart) + seq![
                Lexeme::Key,
            ] + ls + seq![Lexeme::Value],
        ),
{
    let col = lex::indent_at(text, k.at);
    lemma_has(st, s, ks + ls);
    let at = ScanState { at_line_start: false, ..st };
    assert(steps::spaces(0) == Seq::<char>::empty());
    steps::lemma_space_gap(text, st, 0);
    assert(model::after_gap(text, st) == Ok::<ScanState, Failure>(at));
    steps::lemma_line(text, k.at, st.pos);
    reader::lemma_counts(text, st.pos);
    reader::lemma_counts(text, k.at);
    assert(lex::indent_at(text, at.pos) > col);
    assert(model::unrolled(text, at, lex::indent_at(text, at.pos)) == at);
    let p = model::block_value(text, at);
    assert(model::content(text, at) == Ok::<Produced, Failure>(p));
    let next = model::token_added(text, at.pos, p)->Ok_0;
    assert(model::token_step(text, at) == Ok::<ScanState, Failure>(next));
    assert(model::fetch(text, limits, st) == Ok::<ScanState, Failure>(next));
    let start = model::tok(text, Lexeme::BlockMappingStart, k.at, k.at);
    let key = model::tok(text, Lexeme::Key, k.at, k.at);
    let before = opening(s, col, Lexeme::BlockMappingStart);
    let open = model::rolled(text, at, col, Lexeme::BlockMappingStart, k.at, k.number);
    if s.last() < col {
        lemma_insert(at.out, start, ks, ls);
    } else {
        assert(ks + before + ls == ks + ls);
    }
    assert(scan::kinds(open.out) == ks + before + ls);
    lemma_insert(open.out, key, ks + before, ls);
    assert(scan::kinds(next.out) == ks + before + seq![Lexeme::Key] + ls + seq![Lexeme::Value]);
    assert(steps::stack(next) == opened(s, col));
    next
}

// ---------------------------------------------------------------------------
// Texts of trees
// ---------------------------------------------------------------------------

/// The rest of a line ends with a line break.
pub proof fn lemma_rest_end(r: Rest)
    ensures
        steps::rest_text(r).len() > 0,
        steps::rest_text(r).last() == '\n',
        steps::rest_text(r)[0] == ' ' || steps::rest_text(r)[0] == '\n',
{
    lemma_lines_end(r.more, 0);
}

proof fn lemma_lines_end(more: Seq<(nat, Option<Seq<char>>)>, i: int)
    requires
        0 <= i <= more.len(),
    ensures
        steps::lines_text(more, i).len() > 0 ==> steps::lines_text(more, i).last() == '\n',
    decreases more.len() - i,
{
    if i < more.len() {
        lemma_lines_end(more, i + 1);
    }
}

/// The text of a tree begins with a space or a line break, and ends with a line break.
pub proof fn lemma_tree_ends(t: Tree, c: int, place: Place)
    requires
        is_tree(t, place),
        -1 <= c,
    ensures
        tree_text(t, c).len() > 0,
        tree_text(t, c).last() == '\n',
        !(place is Root) ==> tree_text(t, c)[0] == ' ' || tree_text(t, c)[0] == '\n',
    decreases t, 0int,
{
    match t {
        Tree::Leaf(ps, r) => {
            lemma_rest_end(r);
        },
        Tree::Empty(r) => {
            lemma_rest_end(r);
        },
        Tree::Sequence(l, items) => {
            lemma_items_end(items, 0, c + l.by);
            lemma_lead(l, c, place, true);
        },
        Tree::Mapping(l, entries) => {
            lemma_entries_end(entries, 0, c + l.by);
            lemma_lead(l, c, place, false);
        },
    }
}

proof fn lemma_lead(l: Layout, c: int, place: Place, sequence: bool)
    requires
        is_layout(l, place, sequence),
    ensures
        !(place is Root) ==> lead_text(l, c).len() > 0 && (lead_text(l, c)[0] == ' ' || lead_text(
            l,
            c,
        )[0] == '\n'),
{
    lemma_rest_end(l.rest);
}

proof fn lemma_items_end(items: Seq<Tree>, i: int, col: int)
    requires
        0 <= i < items.len(),
        forall|j: int| 0 <= j < items.len() ==> is_tree(#[trigger] items[j], Place::Item),
        -1 <= col,
    ensures
        items_text(items, i, col).len() > 0,
        items_text(items, i, col).last() == '\n',
    decreases items, items.len() - i,
{
    assert(is_tree(items[i], Place::Item));
    lemma_tree_ends(items[i], col, Place::Item);
    if i + 1 < items.len() {
        lemma_items_end(items, i + 1, col);
    }
}

proof fn lemma_entries_end(entries: Seq<(Seq<Piece>, Tree)>, i: int, col: int)
    requires
        0 <= i < entries.len(),
        forall|j: int|
            0 <= j < entries.len() ==> is_key((#[trigger] entries[j]).0) && is_tree(
                entries[j].1,
                Place::Value,
            ),
        -1 <= col,
    ensures
        entries_text(entries, i, col).len() > 0,
        entries_text(entries, i, col).last() == '\n',
    decreases entries, entries.len() - i,
{
    assert(is_tree(entries[i].1, Place::Value));
    lemma_tree_ends(entries[i].1, col, Place::Value);
    if i + 1 < entries.len() {
        lemma_entries_end(entries, i + 1, col);
    }
}

/// Behind a text that ends with a line break, spaces give the column.
pub proof fn lemma_column(text: Seq<char>, i: int, t: Seq<char>, n: nat)
    requires
        leaf::holds(text, i, t),
        t.len() > 0,
        t.last() == '\n',
        leaf::holds(text, i + t.len(), steps::spaces(n)),
    ensures
        reader::column_at(text, i + t.len() + n) == n + 1,
        i + t.len() + n < text.len() <= usize::MAX ==> lex::indent_at(text, i + t.len() + n) == n,
{
    let e = i + t.len();
    assert(text[i + (t.len() - 1)] == t[t.len() - 1]);
    assert(reader::column_at(text, e) == 1);
    assert(words::is_line(steps::spaces(n)));
    steps::lemma_line_text(text, e, steps::spaces(n));
    steps::lemma_line(text, e, e + n);
    reader::lemma_counts(text, e + n);
}

/// A token begins where the pieces of a node do.
pub proof fn lemma_piece_starts(text: Seq<char>, i: int, ps: Seq<Piece>)
    requires
        steps::are_pieces(ps),
        leaf::holds(text, i, steps::pieces_text(ps, 0)),
    ensures
        words::token_starts(text, i),
{
    let p = ps[0];
    assert(words::is_piece(p)) by {
        if ps.len() > 1 {
            assert(steps::is_property(p));
        }
    }
    steps::lemma_piece_line(p);
    let t = words::piece_text(p);
    assert(steps::pieces_text(ps, 0)[0] == t[0]);
    assert(text[i + 0] == steps::pieces_text(ps, 0)[0]);
    assert(t[0] != '\n');
}

// ---------------------------------------------------------------------------
// Scanning
// ---------------------------------------------------------------------------

/// The scanner behind a tree: the tree's tokens are out but for the ends that the next line
/// brings, and the rest of its last line is ahead.
pub open spec fn is_behind(
    text: Seq<char>,
    limits: Limits,
    st: ScanState,
    next: ScanState,
    end: int,
    r: Rest,
    s: Seq<int>,
    ks: Seq<Lexeme>,
) -> bool {
    &&& model::run(text, limits, st) == model::run(text, limits, next)
    &&& model::inside(text, next)
    &&& steps::is_open(next)
    &&& steps::key_here(text, next)
    &&& pending(next, s, ks)
    &&& waits(text, next, end, r)
}

/// Pieces behind an indicator and a space.
pub proof fn lemma_spaced_pieces(
    text: Seq<char>,
    limits: Limits,
    st: ScanState,
    ps: Seq<Piece>,
    s: Seq<int>,
    ks: Seq<Lexeme>,
) -> (next: ScanState)
    requires
        model::inside(text, st),
        steps::is_open(st),
        st.key is None,
        text.len() <= usize::MAX,
        steps::are_pieces(ps),
        leaf::holds(text, st.pos, seq![' '] + steps::pieces_text(ps, 0)),
        has(st, s, ks),
        reader::column_at(text, st.pos) >= s.last() + 2,
        steps::ends_piece(
            text,
            st.pos + 1 + steps::pieces_text(ps, 0).len(),
            ps[ps.len() - 1],
            s.last(),
        ),
    ensures
        model::run(text, limits, st) == model::run(text, limits, next),
        steps::is_open(next),
        steps::key_here(text, next),
        next.pos == st.pos + 1 + steps::pieces_text(ps, 0).len(),
        next.pos <= text.len(),
        has(next, s, ks + steps::pieces_lexemes(ps, 0)),
{
    let t = steps::pieces_text(ps, 0);
    lemma_has(st, s, ks);
    leaf::lemma_holds(text, st.pos, seq![' '], t);
    assert(steps::spaces(1) == seq![' ']);
    let at = ScanState { pos: st.pos + 1, at_line_start: false, ..st };
    lemma_piece_starts(text, at.pos, ps);
    steps::lemma_space_gap(text, st, 1);
    assert(words::is_line(steps::spaces(1)));
    steps::lemma_line_text(text, st.pos, steps::spaces(1));
    steps::lemma_line(text, st.pos, at.pos);
    reader::lemma_counts(text, at.pos);
    assert(model::unrolled(text, at, lex::indent_at(text, at.pos)) == at);
    steps::lemma_pieces(text, limits, st, at, ps)
}

/// A tree behind an indicator of the collection at column `c`.
#[verifier::rlimit(100)]
#[verifier::spinoff_prover]
pub proof fn lemma_tree(
    text: Seq<char>,
    limits: Limits,
    st: ScanState,
    t: Tree,
    c: int,
    place: Place,
    s: Seq<int>,
    ks: Seq<Lexeme>,
    n: nat,
) -> (out: (ScanState, Rest))
    requires
        model::inside(text, st),
        steps::is_open(st),
        st.key is None,
        text.len() <= usize::MAX,
        has(st, s, ks),
        s.last() == c,
        -1 <= c,
        place is Value ==> 0 <= c,
        is_tree(t, place),
        place is Item ==> st.key_allowed && reader::column_at(text, st.pos) == c + 2,
        !(place is Root),
        reader::column_at(text, st.pos) >= c + 2,
        leaf::holds(text, st.pos, tree_text(t, c)),
        follows(text, st.pos + tree_text(t, c).len(), n, c),
    ensures
        is_behind(
            text,
            limits,
            st,
            out.0,
            st.pos + tree_text(t, c).len(),
            out.1,
            s,
            ks + tree_lexemes(t),
        ),
    decreases t, 1int, 0int,
{
    let end = st.pos + tree_text(t, c).len();
    match t {
        Tree::Leaf(ps, r) => {
            let body = seq![' '] + steps::pieces_text(ps, 0);
            assert(tree_text(t, c) == body + steps::rest_text(r));
            leaf::lemma_holds(text, st.pos, body, steps::rest_text(r));
            let e = st.pos + body.len();
            steps::lemma_rest_ends(text, e, r, n, c);
            let next = lemma_spaced_pieces(text, limits, st, ps, s, ks);
            lemma_has(next, s, ks + tree_lexemes(t));
            (next, r)
        },
        Tree::Empty(r) => {
            assert(ks + tree_lexemes(t) == ks);
            lemma_has(st, s, ks);
            (st, r)
        },
        Tree::Sequence(..) => lemma_sequence(text, limits, st, t, c, place, s, ks, n),
        Tree::Mapping(..) => lemma_mapping(text, limits, st, t, c, place, s, ks, n),
    }
}

/// A sequence behind an indicator of the collection at column `c`.
proof fn lemma_sequence(
    text: Seq<char>,
    limits: Limits,
    st: ScanState,
    t: Tree,
    c: int,
    place: Place,
    s: Seq<int>,
    ks: Seq<Lexeme>,
    n: nat,
) -> (out: (ScanState, Rest))
    requires
        model::inside(text, st),
        steps::is_open(st),
        st.key is None,
        text.len() <= usize::MAX,
        has(st, s, ks),
        s.last() == c,
        -1 <= c,
        place is Value ==> 0 <= c,
        is_tree(t, place),
        t is Sequence,
        place is Item ==> st.key_allowed && reader::column_at(text, st.pos) == c + 2,
        !(place is Root),
        reader::column_at(text, st.pos) >= c + 2,
        leaf::holds(text, st.pos, tree_text(t, c)),
        follows(text, st.pos + tree_text(t, c).len(), n, c),
    ensures
        is_behind(
            text,
            limits,
            st,
            out.0,
            st.pos + tree_text(t, c).len(),
            out.1,
            s,
            ks + tree_lexemes(t),
        ),
    decreases t, 0int, 0int,
{
    let l = t->Sequence_0;
    let items = t->Sequence_1;
    let col = c + l.by;
    let body = items_text(items, 0, col);
    leaf::lemma_holds(text, st.pos, lead_text(l, c), body);
    let p = st.pos + lead_text(l, c).len();
    assert(body[0] == '-');
    assert(text[p + 0] == body[0]);
    let (mid, at) = lemma_lead_gap(text, limits, st, l, c, place, true, s, ks);
    let ks2 = ks + steps::pieces_lexemes(l.props, 0);
    lemma_items_end(items, 0, col);
    let out = lemma_items(text, limits, mid, at, items, 0, col, s, ks2, n);
    lemma_closed(
        out.0,
        s,
        col,
        ks2,
        l.by,
        Lexeme::BlockSequenceStart,
        items_lexemes(items, 0),
    );
    assert(ks + tree_lexemes(t) == ks2 + framed(
        l.by,
        Lexeme::BlockSequenceStart,
        items_lexemes(items, 0),
    ));
    out
}

/// A mapping behind an indicator of the collection at column `c`.
proof fn lemma_mapping(
    text: Seq<char>,
    limits: Limits,
    st: ScanState,
    t: Tree,
    c: int,
    place: Place,
    s: Seq<int>,
    ks: Seq<Lexeme>,
    n: nat,
) -> (out: (ScanState, Rest))
    requires
        model::inside(text, st),
        steps::is_open(st),
        st.key is None,
        text.len() <= usize::MAX,
        has(st, s, ks),
        s.last() == c,
        -1 <= c,
        place is Value ==> 0 <= c,
        is_tree(t, place),
        t is Mapping,
        place is Item ==> st.key_allowed && reader::column_at(text, st.pos) == c + 2,
        !(place is Root),
        reader::column_at(text, st.pos) >= c + 2,
        leaf::holds(text, st.pos, tree_text(t, c)),
        follows(text, st.pos + tree_text(t, c).len(), n, c),
    ensures
        is_behind(
            text,
            limits,
            st,
            out.0,
            st.pos + tree_text(t, c).len(),
            out.1,
            s,
            ks + tree_lexemes(t),
        ),
    decreases t, 0int, 0int,
{
    let l = t->Mapping_0;
    let entries = t->Mapping_1;
    let col = c + l.by;
    let body = entries_text(entries, 0, col);
    leaf::lemma_holds(text, st.pos, lead_text(l, c), body);
    let p = st.pos + lead_text(l, c).len();
    let key = steps::pieces_text(entries[0].0, 0);
    assert(is_key(entries[0].0));
    lemma_entry_head(text, p, entries, 0, col);
    lemma_piece_starts(text, p, entries[0].0);
    let (mid, at) = lemma_lead_gap(text, limits, st, l, c, place, false, s, ks);
    let ks2 = ks + steps::pieces_lexemes(l.props, 0);
    let out = lemma_entries(text, limits, mid, at, entries, 0, col, s, ks2, n);
    lemma_closed(
        out.0,
        s,
        col,
        ks2,
        l.by,
        Lexeme::BlockMappingStart,
        entries_lexemes(entries, 0),
    );
    assert(ks + tree_lexemes(t) == ks2 + framed(
        l.by,
        Lexeme::BlockMappingStart,
        entries_lexemes(entries, 0),
    ));
    out
}

/// From an indicator to the first line of the collection behind it.
proof fn lemma_lead_gap(
    text: Seq<char>,
    limits: Limits,
    st: ScanState,
    l: Layout,
    c: int,
    place: Place,
    sequence: bool,
    s: Seq<int>,
    ks: Seq<Lexeme>,
) -> (out: (ScanState, ScanState))
    requires
        model::inside(text, st),
        steps::is_open(st),
        st.key is None,
        text.len() <= usize::MAX,
        has(st, s, ks),
        s.last() == c,
        -1 <= c,
        place is Value ==> 0 <= c,
        is_layout(l, place, sequence),
        place is Item ==> st.key_allowed && reader::column_at(text, st.pos) == c + 2,
        !(place is Root),
        reader::column_at(text, st.pos) >= c + 2,
        leaf::holds(text, st.pos, lead_text(l, c)),
        words::token_starts(text, st.pos + lead_text(l, c).len()),
    ensures
        ({
            let (mid, at) = out;
            let p = st.pos + lead_text(l, c).len();
            &&& model::run(text, limits, st) == model::run(text, limits, mid)
            &&& model::inside(text, mid)
            &&& steps::is_open(mid)
            &&& steps::is_open(at)
            &&& model::after_gap(text, mid) == Ok::<ScanState, Failure>(at)
            &&& at.pos == p
            &&& at.key is None
            &&& at.key_allowed
            &&& has(
                model::unrolled(text, at, c + l.by),
                s,
                ks + steps::pieces_lexemes(l.props, 0),
            )
            &&& lex::indent_at(text, p) == c + l.by
            &&& reader::column_at(text, p) == c + l.by + 1
        }),
{
    if l.inline {
        lemma_inline_gap(text, limits, st, l, c, place, sequence, s, ks)
    } else {
        lemma_line_gap(text, limits, st, l, c, place, sequence, s, ks)
    }
}

/// A collection on the line of the indicator.
proof fn lemma_inline_gap(
    text: Seq<char>,
    limits: Limits,
    st: ScanState,
    l: Layout,
    c: int,
    place: Place,
    sequence: bool,
    s: Seq<int>,
    ks: Seq<Lexeme>,
) -> (out: (ScanState, ScanState))
    requires
        model::inside(text, st),
        steps::is_open(st),
        st.key is None,
        text.len() <= usize::MAX,
        has(st, s, ks),
        s.last() == c,
        -1 <= c,
        place is Value ==> 0 <= c,
        l.inline,
        is_layout(l, place, sequence),
        place is Item ==> st.key_allowed && reader::column_at(text, st.pos) == c + 2,
        !(place is Root),
        reader::column_at(text, st.pos) >= c + 2,
        leaf::holds(text, st.pos, lead_text(l, c)),
        words::token_starts(text, st.pos + lead_text(l, c).len()),
    ensures
        ({
            let (mid, at) = out;
            let p = st.pos + lead_text(l, c).len();
            &&& model::run(text, limits, st) == model::run(text, limits, mid)
            &&& model::inside(text, mid)
            &&& steps::is_open(mid)
            &&& steps::is_open(at)
            &&& model::after_gap(text, mid) == Ok::<ScanState, Failure>(at)
            &&& at.pos == p
            &&& at.key is None
            &&& at.key_allowed
            &&& has(
                model::unrolled(text, at, c + l.by),
                s,
                ks + steps::pieces_lexemes(l.props, 0),
            )
            &&& lex::indent_at(text, p) == c + l.by
            &&& reader::column_at(text, p) == c + l.by + 1
        }),
{
    let p = st.pos + lead_text(l, c).len();
    lemma_has(st, s, ks);
    let n = (l.by - 1) as nat;
    steps::lemma_space_gap(text, st, n);
    let at = ScanState { pos: p, at_line_start: false, ..st };
    assert(words::is_line(steps::spaces(n)));
    steps::lemma_line_text(text, st.pos, steps::spaces(n));
    steps::lemma_line(text, st.pos, p);
    reader::lemma_counts(text, p);
    assert(ks + steps::pieces_lexemes(l.props, 0) == ks);
    assert(model::unrolled(text, at, c + l.by) == at);
    (st, at)
}

/// A collection on the lines after the indicator.
#[verifier::rlimit(100)]
#[verifier::spinoff_prover]
proof fn lemma_line_gap(
    text: Seq<char>,
    limits: Limits,
    st: ScanState,
    l: Layout,
    c: int,
    place: Place,
    sequence: bool,
    s: Seq<int>,
    ks: Seq<Lexeme>,
) -> (out: (ScanState, ScanState))
    requires
        model::inside(text, st),
        steps::is_open(st),
        st.key is None,
        text.len() <= usize::MAX,
        has(st, s, ks),
        s.last() == c,
        -1 <= c,
        place is Value ==> 0 <= c,
        !l.inline,
        is_layout(l, place, sequence),
        place is Item ==> st.key_allowed && reader::column_at(text, st.pos) == c + 2,
        !(place is Root),
        reader::column_at(text, st.pos) >= c + 2,
        leaf::holds(text, st.pos, lead_text(l, c)),
        words::token_starts(text, st.pos + lead_text(l, c).len()),
    ensures
        ({
            let (mid, at) = out;
            let p = st.pos + lead_text(l, c).len();
            &&& model::run(text, limits, st) == model::run(text, limits, mid)
            &&& model::inside(text, mid)
            &&& steps::is_open(mid)
            &&& steps::is_open(at)
            &&& model::after_gap(text, mid) == Ok::<ScanState, Failure>(at)
            &&& at.pos == p
            &&& at.key is None
            &&& at.key_allowed
            &&& has(
                model::unrolled(text, at, c + l.by),
                s,
                ks + steps::pieces_lexemes(l.props, 0),
            )
            &&& lex::indent_at(text, p) == c + l.by
            &&& reader::column_at(text, p) == c + l.by + 1
        }),
{
    let p = st.pos + lead_text(l, c).len();
    let ks2 = ks + steps::pieces_lexemes(l.props, 0);
    lemma_has(st, s, ks);
    let n = (c + l.by) as nat;
    let rest = steps::rest_text(l.rest);
    leaf::lemma_holds(text, st.pos, props_text(l.props), rest + steps::spaces(n));
    let e = st.pos + props_text(l.props).len();
    leaf::lemma_holds(text, e, rest, steps::spaces(n));
    lemma_rest_end(l.rest);
    lemma_column(text, e, rest, n);
    assert(text[e + 0] == rest[0]);
    let mid = if l.props.len() == 0 {
        assert(ks2 == ks);
        st
    } else {
        lemma_spaced_pieces(text, limits, st, l.props, s, ks)
    };
    lemma_has(mid, s, ks2);
    steps::lemma_rest_gap(text, mid, l.rest, n);
    let at = ScanState { pos: p, key_allowed: true, at_line_start: false, key: None, ..mid };
    assert(steps::stack(at) == steps::stack(mid));
    assert(model::unrolled(text, at, c + l.by) == at);
    (mid, at)
}

/// Where the parts of entry `i` stand.
pub proof fn lemma_entry_head(
    text: Seq<char>,
    p: int,
    entries: Seq<(Seq<Piece>, Tree)>,
    i: int,
    col: int,
)
    requires
        0 <= i < entries.len(),
        leaf::holds(text, p, entries_text(entries, i, col)),
        is_key(entries[i].0),
        is_tree(entries[i].1, Place::Value),
        -1 <= col,
    ensures
        ({
            let key = steps::pieces_text(entries[i].0, 0);
            let t = tree_text(entries[i].1, col);
            let e = p + key.len();
            let end = e + 1 + t.len();
            &&& leaf::holds(text, p, key)
            &&& e + 1 < text.len()
            &&& text[e] == ':'
            &&& text[e + 1] == ' ' || text[e + 1] == '\n'
            &&& leaf::holds(text, e + 1, t)
            &&& i + 1 < entries.len() ==> {
                &&& leaf::holds(text, end, steps::spaces(col as nat))
                &&& leaf::holds(text, end + col as nat, entries_text(entries, i + 1, col))
                &&& p + entries_text(entries, i, col).len() == end + (col as nat) + entries_text(
                    entries,
                    i + 1,
                    col,
                ).len()
            }
            &&& i + 1 == entries.len() ==> p + entries_text(entries, i, col).len() == end
        }),
{
    let key = steps::pieces_text(entries[i].0, 0);
    let t = tree_text(entries[i].1, col);
    let tail = if i + 1 < entries.len() {
        steps::spaces(col as nat) + entries_text(entries, i + 1, col)
    } else {
        Seq::empty()
    };
    let e = p + key.len();
    assert(entries_text(entries, i, col) == key + (seq![':'] + (t + tail)));
    leaf::lemma_holds(text, p, key, seq![':'] + (t + tail));
    leaf::lemma_holds(text, e, seq![':'], t + tail);
    leaf::lemma_holds(text, e + 1, t, tail);
    lemma_tree_ends(entries[i].1, col, Place::Value);
    assert(text[e + 0] == seq![':'][0]);
    assert(text[e + 1 + 0] == t[0]);
    if i + 1 < entries.len() {
        leaf::lemma_holds(
            text,
            e + 1 + t.len(),
            steps::spaces(col as nat),
            entries_text(entries, i + 1, col),
        );
    }
}

/// Where the parts of item `i` stand.
pub proof fn lemma_item_head(text: Seq<char>, p: int, items: Seq<Tree>, i: int, col: int)
    requires
        0 <= i < items.len(),
        leaf::holds(text, p, items_text(items, i, col)),
        is_tree(items[i], Place::Item),
        -1 <= col,
    ensures
        ({
            let t = tree_text(items[i], col);
            let end = p + 1 + t.len();
            &&& p + 1 < text.len()
            &&& text[p] == '-'
            &&& text[p + 1] == ' ' || text[p + 1] == '\n'
            &&& leaf::holds(text, p + 1, t)
            &&& i + 1 < items.len() ==> {
                &&& leaf::holds(text, end, steps::spaces(col as nat))
                &&& leaf::holds(text, end + col as nat, items_text(items, i + 1, col))
                &&& p + items_text(items, i, col).len() == end + (col as nat) + items_text(
                    items,
                    i + 1,
                    col,
                ).len()
            }
            &&& i + 1 == items.len() ==> p + items_text(items, i, col).len() == end
        }),
{
    let t = tree_text(items[i], col);
    let tail = if i + 1 < items.len() {
        steps::spaces(col as nat) + items_text(items, i + 1, col)
    } else {
        Seq::empty()
    };
    assert(items_text(items, i, col) == seq!['-'] + (t + tail));
    leaf::lemma_holds(text, p, seq!['-'], t + tail);
    leaf::lemma_holds(text, p + 1, t, tail);
    lemma_tree_ends(items[i], col, Place::Item);
    assert(text[p + 0] == seq!['-'][0]);
    assert(text[p + 1 + 0] == t[0]);
    if i + 1 < items.len() {
        leaf::lemma_holds(
            text,
            p + 1 + t.len(),
            steps::spaces(col as nat),
            items_text(items, i + 1, col),
        );
    }
}

/// The items of a sequence at column `col` from item `i` on.
#[verifier::rlimit(100)]
#[verifier::spinoff_prover]
pub proof fn lemma_items(
    text: Seq<char>,
    limits: Limits,
    st: ScanState,
    at: ScanState,
    items: Seq<Tree>,
    i: int,
    col: int,
    s: Seq<int>,
    ks: Seq<Lexeme>,
    n: nat,
) -> (out: (ScanState, Rest))
    requires
        model::inside(text, st),
        steps::is_open(st),
        steps::is_open(at),
        model::after_gap(text, st) == Ok::<ScanState, Failure>(at),
        at.key is None,
        at.key_allowed,
        text.len() <= usize::MAX,
        0 <= col,
        lex::indent_at(text, at.pos) == col,
        reader::column_at(text, at.pos) == col + 1,
        has(model::unrolled(text, at, col), s, ks),
        s.last() <= col,
        0 <= i < items.len(),
        forall|j: int| 0 <= j < items.len() ==> is_tree(#[trigger] items[j], Place::Item),
        leaf::holds(text, at.pos, items_text(items, i, col)),
        follows(text, at.pos + items_text(items, i, col).len(), n, col),
    ensures
        is_behind(
            text,
            limits,
            st,
            out.0,
            at.pos + items_text(items, i, col).len(),
            out.1,
            opened(s, col),
            ks + opening(s, col, Lexeme::BlockSequenceStart) + items_lexemes(items, i),
        ),
    decreases items, items.len() - i, 0int,
{
    let t = items[i];
    assert(is_tree(t, Place::Item));
    lemma_item_head(text, at.pos, items, i, col);
    let body = tree_text(t, col);
    let end = at.pos + 1 + body.len();
    let begun = lemma_dash(text, limits, st, at, s, ks);
    let ks1 = ks + opening(s, col, Lexeme::BlockSequenceStart) + seq![Lexeme::BlockEntry];
    let o = opened(s, col);
    let ks2 = ks1 + tree_lexemes(t);
    lemma_has(begun, o, ks1);
    lemma_tree_ends(t, col, Place::Item);
    assert(reader::column_at(text, at.pos + 1) == col + 2);
    if i + 1 < items.len() {
        let m = col as nat;
        let p = end + m;
        assert(is_tree(items[i + 1], Place::Item));
        lemma_item_head(text, p, items, i + 1, col);
        lemma_column(text, at.pos + 1, body, m);
        let (mid, r) = lemma_tree(text, limits, begun, t, col, Place::Item, o, ks1, m);
        steps::lemma_rest_gap(text, mid, r, m);
        let there = model::after_gap(text, mid)->Ok_0;
        assert(steps::stack(there) == steps::stack(mid));
        lemma_unroll(text, there, o, ks2, col);
        let out = lemma_items(text, limits, mid, there, items, i + 1, col, o, ks2, n);
        assert(ks2 + opening(o, col, Lexeme::BlockSequenceStart) + items_lexemes(items, i + 1)
            == ks + opening(s, col, Lexeme::BlockSequenceStart) + items_lexemes(items, i));
        out
    } else {
        let out = lemma_tree(text, limits, begun, t, col, Place::Item, o, ks1, n);
        assert(items_lexemes(items, i + 1) == Seq::<Lexeme>::empty());
        assert(ks2 == ks + opening(s, col, Lexeme::BlockSequenceStart) + items_lexemes(items, i));
        out
    }
}

/// The entries of a mapping at column `col` from entry `i` on.
#[verifier::rlimit(100)]
#[verifier::spinoff_prover]
pub proof fn lemma_entries(
    text: Seq<char>,
    limits: Limits,
    st: ScanState,
    at: ScanState,
    entries: Seq<(Seq<Piece>, Tree)>,
    i: int,
    col: int,
    s: Seq<int>,
    ks: Seq<Lexeme>,
    n: nat,
) -> (out: (ScanState, Rest))
    requires
        model::inside(text, st),
        steps::is_open(st),
        steps::is_open(at),
        model::after_gap(text, st) == Ok::<ScanState, Failure>(at),
        at.key is None,
        at.key_allowed,
        text.len() <= usize::MAX,
        0 <= col,
        lex::indent_at(text, at.pos) == col,
        reader::column_at(text, at.pos) == col + 1,
        has(model::unrolled(text, at, col), s, ks),
        s.last() <= col,
        0 <= i < entries.len(),
        forall|j: int|
            0 <= j < entries.len() ==> is_key((#[trigger] entries[j]).0) && is_tree(
                entries[j].1,
                Place::Value,
            ),
        leaf::holds(text, at.pos, entries_text(entries, i, col)),
        follows(text, at.pos + entries_text(entries, i, col).len(), n, col),
    ensures
        is_behind(
            text,
            limits,
            st,
            out.0,
            at.pos + entries_text(entries, i, col).len(),
            out.1,
            opened(s, col),
            ks + opening(s, col, Lexeme::BlockMappingStart) + entries_lexemes(entries, i),
        ),
    decreases entries, entries.len() - i, 0int,
{
    let (ps, t) = entries[i];
    assert(is_tree(t, Place::Value) && is_key(ps));
    lemma_entry_head(text, at.pos, entries, i, col);
    let head = steps::pieces_text(ps, 0).len() + 1;
    let body = tree_text(t, col);
    let end = at.pos + head + body.len();
    let start = opening(s, col, Lexeme::BlockMappingStart);
    let ks2 = ks + start + entry_lexemes(ps, t);
    let o = opened(s, col);
    if i + 1 < entries.len() {
        let m = col as nat;
        assert(is_tree(entries[i + 1].1, Place::Value) && is_key(entries[i + 1].0));
        lemma_next_entry(text, at.pos + head, t, col, entries, i + 1);
        let (mid, r) = lemma_entry(text, limits, st, at, ps, t, col, s, ks, m);
        steps::lemma_rest_gap(text, mid, r, m);
        let there = model::after_gap(text, mid)->Ok_0;
        assert(steps::stack(there) == steps::stack(mid));
        lemma_unroll(text, there, o, ks2, col);
        let out = lemma_entries(text, limits, mid, there, entries, i + 1, col, o, ks2, n);
        lemma_entries_sum(entries, i, ks + start);
        assert(ks2 + opening(o, col, Lexeme::BlockMappingStart) == ks2);
        out
    } else {
        let out = lemma_entry(text, limits, st, at, ps, t, col, s, ks, n);
        lemma_entries_sum(entries, i, ks + start);
        out
    }
}

pub open spec fn entry_lexemes(ps: Seq<Piece>, t: Tree) -> Seq<Lexeme> {
    seq![Lexeme::Key] + steps::pieces_lexemes(ps, 0) + seq![Lexeme::Value] + tree_lexemes(t)
}

proof fn lemma_entries_sum(entries: Seq<(Seq<Piece>, Tree)>, i: int, ks: Seq<Lexeme>)
    requires
        0 <= i < entries.len(),
    ensures
        ks + entry_lexemes(entries[i].0, entries[i].1) + entries_lexemes(entries, i + 1) == ks
            + entries_lexemes(entries, i),
        i + 1 == entries.len() ==> ks + entry_lexemes(entries[i].0, entries[i].1) == ks
            + entries_lexemes(entries, i),
{
    let one = entry_lexemes(entries[i].0, entries[i].1);
    assert(entries_lexemes(entries, i) == one + entries_lexemes(entries, i + 1));
    if i + 1 == entries.len() {
        assert(entries_lexemes(entries, i + 1) == Seq::<Lexeme>::empty());
    }
}

/// The next entry begins at the column of the mapping.
proof fn lemma_next_entry(
    text: Seq<char>,
    p: int,
    t: Tree,
    col: int,
    entries: Seq<(Seq<Piece>, Tree)>,
    i: int,
)
    requires
        text.len() <= usize::MAX,
        0 <= col,
        is_tree(t, Place::Value),
        leaf::holds(text, p, tree_text(t, col)),
        leaf::holds(text, p + tree_text(t, col).len(), steps::spaces(col as nat)),
        0 <= i < entries.len(),
        is_key(entries[i].0),
        is_tree(entries[i].1, Place::Value),
        leaf::holds(
            text,
            p + tree_text(t, col).len() + col as nat,
            entries_text(entries, i, col),
        ),
    ensures
        follows(text, p + tree_text(t, col).len(), col as nat, col),
        reader::column_at(text, p + tree_text(t, col).len() + col) == col + 1,
        lex::indent_at(text, p + tree_text(t, col).len() + col) == col,
        words::token_starts(text, p + tree_text(t, col).len() + col),
{
    let there = p + tree_text(t, col).len() + col;
    lemma_tree_ends(t, col, Place::Value);
    lemma_entry_head(text, there, entries, i, col);
    lemma_piece_starts(text, there, entries[i].0);
    lemma_column(text, p, tree_text(t, col), col as nat);
}

/// A key with its value.
proof fn lemma_entry(
    text: Seq<char>,
    limits: Limits,
    st: ScanState,
    at: ScanState,
    ps: Seq<Piece>,
    t: Tree,
    col: int,
    s: Seq<int>,
    ks: Seq<Lexeme>,
    n: nat,
) -> (out: (ScanState, Rest))
    requires
        model::inside(text, st),
        steps::is_open(st),
        steps::is_open(at),
        model::after_gap(text, st) == Ok::<ScanState, Failure>(at),
        at.key is None,
        at.key_allowed,
        text.len() <= usize::MAX,
        0 <= col,
        lex::indent_at(text, at.pos) == col,
        reader::column_at(text, at.pos) == col + 1,
        has(model::unrolled(text, at, col), s, ks),
        s.last() <= col,
        is_key(ps),
        is_tree(t, Place::Value),
        leaf::holds(text, at.pos, steps::pieces_text(ps, 0)),
        ({
            let e = at.pos + steps::pieces_text(ps, 0).len();
            &&& e + 1 < text.len() && text[e] == ':' && (text[e + 1] == ' ' || text[e + 1] == '\n')
            &&& leaf::holds(text, e + 1, tree_text(t, col))
            &&& follows(text, e + 1 + tree_text(t, col).len(), n, col)
        }),
    ensures
        is_behind(
            text,
            limits,
            st,
            out.0,
            at.pos + steps::pieces_text(ps, 0).len() + 1 + tree_text(t, col).len(),
            out.1,
            opened(s, col),
            ks + opening(s, col, Lexeme::BlockMappingStart) + entry_lexemes(ps, t),
        ),
    decreases t, 2int, 0int,
{
    let begun = lemma_key(text, limits, st, at, ps, col, s, ks);
    let start = opening(s, col, Lexeme::BlockMappingStart);
    let ks1 = ks + start + seq![Lexeme::Key] + steps::pieces_lexemes(ps, 0) + seq![Lexeme::Value];
    let o = opened(s, col);
    lemma_has(begun, o, ks1);
    assert(ks1 + tree_lexemes(t) == ks + start + entry_lexemes(ps, t));
    lemma_tree(text, limits, begun, t, col, Place::Value, o, ks1, n)
}

/// A key and its `:` behind a gap.
pub proof fn lemma_key(
    text: Seq<char>,
    limits: Limits,
    st: ScanState,
    at: ScanState,
    ps: Seq<Piece>,
    col: int,
    s: Seq<int>,
    ks: Seq<Lexeme>,
) -> (next: ScanState)
    requires
        model::inside(text, st),
        steps::is_open(st),
        steps::is_open(at),
        model::after_gap(text, st) == Ok::<ScanState, Failure>(at),
        at.key is None,
        at.key_allowed,
        text.len() <= usize::MAX,
        0 <= col,
        lex::indent_at(text, at.pos) == col,
        reader::column_at(text, at.pos) == col + 1,
        has(model::unrolled(text, at, col), s, ks),
        s.last() <= col,
        is_key(ps),
        leaf::holds(text, at.pos, steps::pieces_text(ps, 0)),
        ({
            let e = at.pos + steps::pieces_text(ps, 0).len();
            e + 1 < text.len() && text[e] == ':' && (text[e + 1] == ' ' || text[e + 1] == '\n')
        }),
    ensures
        model::run(text, limits, st) == model::run(text, limits, next),
        steps::is_open(next),
        next.key is None,
        next.pos == at.pos + steps::pieces_text(ps, 0).len() + 1,
        reader::column_at(text, next.pos) >= col + 2,
        has(
            next,
            opened(s, col),
            ks + opening(s, col, Lexeme::BlockMappingStart) + seq![Lexeme::Key]
                + steps::pieces_lexemes(ps, 0) + seq![Lexeme::Value],
        ),
{
    let level = model::unrolled(text, at, col);
    let ls = steps::pieces_lexemes(ps, 0);
    lemma_has(level, s, ks);
    let named = steps::lemma_pieces(text, limits, st, at, ps);
    let k = KeyMark { number: level.out.len() as int, at: at.pos };
    steps::lemma_line(text, at.pos, named.pos);
    let next = lemma_colon(text, limits, named, k, s, ks, ls);
    next
}

} // verus!
