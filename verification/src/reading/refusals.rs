//! Texts that are no scalars or tokens, and are refused.

use crate::options::Limits;
use crate::reading::steps;
use crate::reading::words;
use crate::reading::words::{Glyph, Word};
use crate::resolution;
use crate::roundtrip::leaf;
use crate::roundtrip::scan;
use crate::scanner::lex;
use crate::scanner::model;
use crate::scanner::model::{Gap, ScanState};
use crate::scanner::properties;
use crate::scanner::quoted;
use crate::scanner::reader;
use crate::scanner::token::Lexeme;
use crate::text;
use vstd::prelude::*;

verus! {

// ---------------------------------------------------------------------------
// Quotes
// ---------------------------------------------------------------------------

/// A quoted scalar whose closing quote is missing is refused.
pub proof fn law_open_quotes_are_refused(text: Seq<char>, i: int, w: Word)
    requires
        words::is_word(w),
        w is Single || w is Double,
        0 <= i,
        text.len() == i + words::word_text(w).len() - 1,
        leaf::holds(text, i, words::word_text(w).drop_last()),
    ensures
        w is Single ==> quoted::single_quoted(text, i, i + 1, Seq::empty()) is Err,
        w is Double ==> quoted::double_quoted(text, i, i + 1, Seq::empty()) is Err,
{
    match w {
        Word::Single(s) => {
            let body = words::doubled(s);
            assert(words::word_text(w).drop_last() == seq!['\''] + body);
            leaf::lemma_holds(text, i, seq!['\''], body);
            assert(s.take(s.len() as int) == s);
            words::lemma_single_prefix(text, i, i + 1, s, s.len() as int, Seq::empty());
        },
        Word::Double(gs) => {
            let body = words::glyphs_text(gs);
            assert(words::word_text(w).drop_last() == seq!['"'] + body);
            leaf::lemma_holds(text, i, seq!['"'], body);
            assert(gs.take(gs.len() as int) == gs);
            words::lemma_double_prefix(text, i, i + 1, gs, gs.len() as int, Seq::empty());
        },
        Word::Plain(_) => {},
    }
}

/// A backslash before a letter that makes no escape is refused, wherever it stands.
pub proof fn law_unknown_escapes_are_refused(text: Seq<char>, i: int, gs: Seq<Glyph>, c: char)
    requires
        forall|j: int| 0 <= j < gs.len() ==> words::is_glyph(#[trigger] gs[j]),
        leaf::holds(text, i, seq!['"'] + words::glyphs_text(gs) + seq!['\\', c]),
        words::named(c) is None,
        words::code_width(c) == 0,
        c != '\n',
        c != '\r',
    ensures
        quoted::double_quoted(text, i, i + 1, Seq::empty()) is Err,
{
    let body = words::glyphs_text(gs);
    assert(seq!['"'] + body + seq!['\\', c] == seq!['"'] + (body + seq!['\\', c]));
    leaf::lemma_holds(text, i, seq!['"'], body + seq!['\\', c]);
    leaf::lemma_holds(text, i + 1, body, seq!['\\', c]);
    assert(gs.take(gs.len() as int) == gs);
    words::lemma_double_prefix(text, i, i + 1, gs, gs.len() as int, Seq::empty());
    let p = i + 1 + body.len();
    assert(text[p + 0] == seq!['\\', c][0]);
    assert(text[p + 1] == seq!['\\', c][1]);
    assert(quoted::escape(text, i, p + 1) is Err);
}

/// Digits of an escape by code come one by one.
proof fn lemma_code(text: Seq<char>, start: int, i: int, ds: Seq<char>, k: int, width: nat)
    requires
        0 <= k <= ds.len() <= width,
        resolution::are_digits(ds, 16),
        leaf::holds(text, i, ds),
        0 <= resolution::number(ds.take(k), 16),
    ensures
        0 <= resolution::number(ds, 16),
        quoted::hex_escape(
            text,
            start,
            i + k,
            (width - k) as nat,
            resolution::number(ds.take(k), 16) as nat,
        ) == quoted::hex_escape(
            text,
            start,
            i + ds.len(),
            (width - ds.len()) as nat,
            resolution::number(ds, 16) as nat,
        ),
    decreases ds.len() - k,
{
    let n = resolution::number(ds.take(k), 16);
    if k == ds.len() {
        assert(ds.take(k) == ds);
    } else {
        assert(text[i + k] == ds[k]);
        assert(resolution::symbol(ds[k]) < 16);
        assert(ds.take(k + 1).drop_last() == ds.take(k));
        assert(ds.take(k + 1).last() == ds[k]);
        assert(text::digit_value(ds[k]) == Some(resolution::symbol(ds[k]) as nat));
        assert(resolution::number(ds.take(k + 1), 16) == n * 16 + resolution::symbol(ds[k]));
        lemma_code(text, start, i, ds, k + 1, width);
    }
}

/// An escape by code is refused where its digits are too few, or where the code is no
/// character's.
pub proof fn law_bad_codes_are_refused(
    text: Seq<char>,
    i: int,
    gs: Seq<Glyph>,
    c: char,
    ds: Seq<char>,
)
    requires
        forall|j: int| 0 <= j < gs.len() ==> words::is_glyph(#[trigger] gs[j]),
        leaf::holds(text, i, seq!['"'] + words::glyphs_text(gs) + (seq!['\\', c] + ds)),
        words::code_width(c) > 0,
        resolution::are_digits(ds, 16),
        ds.len() <= words::code_width(c),
        ({
            let e = i + 3 + words::glyphs_text(gs).len() + ds.len();
            if ds.len() < words::code_width(c) {
                e == text.len() || resolution::symbol(text[e]) >= 16
            } else {
                !words::is_code(resolution::number(ds, 16))
            }
        }),
    ensures
        quoted::double_quoted(text, i, i + 1, Seq::empty()) is Err,
{
    let body = words::glyphs_text(gs);
    let bad = seq!['\\', c] + ds;
    assert(seq!['"'] + body + bad == seq!['"'] + (body + bad));
    leaf::lemma_holds(text, i, seq!['"'], body + bad);
    leaf::lemma_holds(text, i + 1, body, bad);
    assert(gs.take(gs.len() as int) == gs);
    words::lemma_double_prefix(text, i, i + 1, gs, gs.len() as int, Seq::empty());
    let p = i + 1 + body.len();
    leaf::lemma_holds(text, p, seq!['\\', c], ds);
    assert(text[p + 0] == seq!['\\', c][0]);
    assert(text[p + 1] == seq!['\\', c][1]);
    assert(ds.take(0) == Seq::<char>::empty());
    assert(resolution::number(ds.take(0), 16) == 0);
    lemma_code(text, i, p + 2, ds, 0, words::code_width(c));
    assert(quoted::escape(text, i, p + 1) is Err);
}

/// An anchor or an alias without a name is refused.
pub proof fn law_empty_names_are_refused(text: Seq<char>, i: int, anchor: bool)
    requires
        0 <= i < text.len(),
        i + 1 == text.len() || words::is_space(text[i + 1]) || text[i + 1] == ',' || text[i + 1]
            == '[' || text[i + 1] == ']' || text[i + 1] == '{' || text[i + 1] == '}',
    ensures
        properties::node_name(text, i, anchor) is Err,
{
    lex::lemma_run_is(lex::Run::Name, text, i + 1, i + 1);
}

// ---------------------------------------------------------------------------
// Gaps
// ---------------------------------------------------------------------------

/// A `#` right behind a token is refused: a comment needs something blank before it.
pub proof fn law_comments_need_space(text: Seq<char>, limits: Limits, st: ScanState)
    requires
        model::inside(text, st),
        st.started,
        !st.ended,
        st.pos < text.len(),
        text[st.pos] == '#',
        reader::column_at(text, st.pos) > 1,
    ensures
        model::fetch(text, limits, st) is Err,
{
}

/// A tab in the indentation of a line outside flow collections is refused where content
/// follows it.
pub proof fn law_tabs_do_not_indent(text: Seq<char>, limits: Limits, st: ScanState, n: nat)
    requires
        model::inside(text, st),
        st.started,
        !st.ended,
        st.flow_depth == 0,
        !st.tab_in_indent,
        leaf::holds(text, st.pos, seq!['\n'] + (steps::spaces(n) + seq!['\t'])),
        words::token_starts(text, st.pos + n + 2),
    ensures
        model::fetch(text, limits, st) is Err,
{
    let line = steps::spaces(n) + seq!['\t'];
    leaf::lemma_holds(text, st.pos, seq!['\n'], line);
    leaf::lemma_holds(text, st.pos + 1, steps::spaces(n), seq!['\t']);
    assert(text[st.pos + 0] == seq!['\n'][0]);
    let t = st.pos + 1 + n;
    assert(text[t + 0] == seq!['\t'][0]);
    let g = Gap {
        pos: st.pos + 1,
        separated: true,
        key_allowed: true,
        at_line_start: true,
        tab_in_indent: false,
    };
    steps::lemma_skip_spaces(text, g, n);
    let tab = Gap { pos: t, ..g };
    let last = Gap { pos: t + 1, tab_in_indent: true, ..g };
    assert(model::skip_gap(text, true, tab) == model::skip_gap(text, true, last));
    assert(model::skip_gap(text, true, last) == Ok::<Gap, lex::Stop>(
        Gap { at_line_start: false, ..last },
    ));
    let at = model::after_gap(text, st)->Ok_0;
    assert(at.tab_in_indent && at.pos == t + 1);
    assert(reader::column_at(text, t + 1) > 1) by {
        lex::lemma_column_positive(text, t);
    }
}

// ---------------------------------------------------------------------------
// Block indicators
// ---------------------------------------------------------------------------

/// A `- ` outside flow collections is refused where no key may begin, as behind a key and
/// its colon.
pub proof fn law_misplaced_entries_are_refused(text: Seq<char>, st: ScanState)
    requires
        0 <= st.pos,
        st.flow_depth == 0,
        !st.key_allowed,
        st.pos + 1 < text.len(),
        text[st.pos] == '-',
        text[st.pos + 1] == ' ' || text[st.pos + 1] == '\n',
    ensures
        model::content(text, st) is Err,
{
}

/// A `? ` outside flow collections is a `Key`. It opens a mapping where it is deeper than the
/// collection around it, and only there.
pub proof fn law_question_marks_are_keys(text: Seq<char>, st: ScanState)
    requires
        0 <= st.pos,
        st.flow_depth == 0,
        st.pos + 1 < text.len() <= usize::MAX,
        text[st.pos] == '?',
        text[st.pos + 1] == ' ' || text[st.pos + 1] == '\n',
    ensures
        model::content(text, st) matches Ok(p) && {
            let col = reader::column_at(text, st.pos) - 1;
            &&& p.tok.kind == Lexeme::Key
            &&& p.st.pos == st.pos + 1
            &&& p.st.key is None
            &&& st.indent < col ==> {
                &&& scan::kinds(p.st.out) == scan::kinds(st.out) + seq![Lexeme::BlockMappingStart]
                &&& p.st.indent == col
                &&& p.st.indents == st.indents.push(st.indent)
            }
            &&& st.indent >= col ==> p.st.out == st.out && p.st.indent == st.indent
                && p.st.indents == st.indents
        },
{
    reader::lemma_counts(text, st.pos);
    let p = model::content(text, st)->Ok_0;
    let col = reader::column_at(text, st.pos) - 1;
    if st.indent < col {
        assert(scan::kinds(p.st.out) == scan::kinds(st.out) + seq![Lexeme::BlockMappingStart]);
    }
}

/// A `: ` outside flow collections without a key before it is a `Value`, and a key may begin
/// behind it. It opens a mapping where it is deeper than the collection around it.
pub proof fn law_lone_colons_are_values(text: Seq<char>, st: ScanState)
    requires
        0 <= st.pos,
        st.flow_depth == 0,
        st.key is None,
        st.pos + 1 < text.len() <= usize::MAX,
        text[st.pos] == ':',
        text[st.pos + 1] == ' ' || text[st.pos + 1] == '\n',
    ensures
        model::content(text, st) matches Ok(p) && {
            let col = reader::column_at(text, st.pos) - 1;
            &&& p.tok.kind == Lexeme::Value
            &&& p.st.pos == st.pos + 1
            &&& p.st.key is None
            &&& p.st.key_allowed
            &&& st.indent < col ==> {
                &&& scan::kinds(p.st.out) == scan::kinds(st.out) + seq![Lexeme::BlockMappingStart]
                &&& p.st.indent == col
                &&& p.st.indents == st.indents.push(st.indent)
            }
            &&& st.indent >= col ==> p.st.out == st.out && p.st.indent == st.indent
                && p.st.indents == st.indents
        },
{
    reader::lemma_counts(text, st.pos);
    let p = model::content(text, st)->Ok_0;
    let col = reader::column_at(text, st.pos) - 1;
    if st.indent < col {
        assert(scan::kinds(p.st.out) == scan::kinds(st.out) + seq![Lexeme::BlockMappingStart]);
    }
}

/// A lone `-` before the end of an entry is refused inside flow collections.
pub proof fn law_lone_dashes_are_refused_in_flow(text: Seq<char>, st: ScanState)
    requires
        0 <= st.pos,
        st.flow_depth > 0,
        st.pos + 1 < text.len(),
        text[st.pos] == '-',
        text[st.pos + 1] == ',' || text[st.pos + 1] == ']' || text[st.pos + 1] == '}',
    ensures
        model::content(text, st) is Err,
{
}

/// A marked key that is on an earlier line than the next token is no key any more.
pub proof fn law_keys_stay_on_their_line(text: Seq<char>, st: ScanState)
    requires
        model::inside(text, st),
        text.len() < usize::MAX,
    ensures
        model::after_gap(text, st) matches Ok(next) ==> match st.key {
            Some(k) => 0 <= k.at <= text.len() ==> next.key == if reader::line_at(text, k.at)
                == reader::line_at(text, next.pos) {
                Some(k)
            } else {
                None
            },
            None => next.key is None,
        },
{
    model::lemma_after_gap(text, st);
    if let Ok(next) = model::after_gap(text, st) {
        reader::lemma_counts(text, next.pos);
        if let Some(k) = st.key {
            if 0 <= k.at <= text.len() {
                reader::lemma_counts(text, k.at);
            }
        }
    }
}

} // verus!
