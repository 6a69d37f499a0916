//! How the scanner moves from one token to the next outside flow collections.

use crate::options::Limits;
use crate::reading::words;
use crate::reading::words::{Glyph, Piece, Word};
use crate::roundtrip::leaf;
use crate::roundtrip::scan;
use crate::scanner::lex;
use crate::scanner::lex::Run;
use crate::scanner::model;
use crate::scanner::model::{Failure, Gap, KeyMark, Produced, ScanState};
use crate::scanner::properties;
use crate::scanner::reader;
use crate::scanner::token::Lexeme;
use vstd::prelude::*;

verus! {

// ---------------------------------------------------------------------------
// Lines
// ---------------------------------------------------------------------------

/// No line ends between `i` and `j`.
pub open spec fn on_line(text: Seq<char>, i: int, j: int) -> bool {
    &&& 0 <= i <= j <= text.len()
    &&& forall|k: int| i <= k < j ==> #[trigger] text[k] != '\n' && text[k] != '\r'
}

/// On a line the columns count up.
pub proof fn lemma_line(text: Seq<char>, i: int, j: int)
    requires
        on_line(text, i, j),
    ensures
        reader::line_at(text, j) == reader::line_at(text, i),
        reader::column_at(text, j) == reader::column_at(text, i) + (j - i),
    decreases j - i,
{
    if i < j {
        assert(text[j - 1] != '\n');
        lemma_line(text, i, j - 1);
    }
}

/// Lines count up.
pub proof fn lemma_lines(text: Seq<char>, i: int, j: int)
    requires
        i <= j,
    ensures
        reader::line_at(text, i) <= reader::line_at(text, j),
    decreases j - i,
{
    if i < j {
        lemma_lines(text, i, j - 1);
    }
}

/// A text without line breaks lies on a line.
pub proof fn lemma_line_text(text: Seq<char>, i: int, s: Seq<char>)
    requires
        leaf::holds(text, i, s),
        words::is_line(s),
    ensures
        on_line(text, i, i + s.len()),
{
    assert forall|k: int| i <= k < i + s.len() implies #[trigger] text[k] != '\n' && text[k]
        != '\r' by {
        assert(text[i + (k - i)] == s[k - i]);
    }
}

/// `n` spaces.
pub open spec fn spaces(n: nat) -> Seq<char> {
    Seq::new(n, |i: int| ' ')
}

/// A comment, where there is one.
pub open spec fn note_text(note: Option<Seq<char>>) -> Seq<char> {
    match note {
        None => Seq::empty(),
        Some(c) => seq!['#'] + c,
    }
}

/// What may follow the last token of a line: a comment behind a space, the line break, and
/// lines that hold spaces and a comment, or less.
pub struct Rest {
    pub note: Option<Seq<char>>,
    pub more: Seq<(nat, Option<Seq<char>>)>,
}

/// Lines without content, from line `i` on.
pub open spec fn lines_text(more: Seq<(nat, Option<Seq<char>>)>, i: int) -> Seq<char>
    decreases more.len() - i,
{
    if 0 <= i < more.len() {
        spaces(more[i].0) + (note_text(more[i].1) + (seq!['\n'] + lines_text(more, i + 1)))
    } else {
        Seq::empty()
    }
}

pub open spec fn rest_text(r: Rest) -> Seq<char> {
    (if r.note is Some {
        seq![' ']
    } else {
        Seq::empty()
    }) + (note_text(r.note) + (seq!['\n'] + lines_text(r.more, 0)))
}

/// The comments have no line breaks inside.
pub open spec fn is_note(note: Option<Seq<char>>) -> bool {
    note matches Some(c) ==> words::is_line(c)
}

pub open spec fn is_rest(r: Rest) -> bool {
    &&& is_note(r.note)
    &&& forall|i: int| 0 <= i < r.more.len() ==> is_note((#[trigger] r.more[i]).1)
}

// ---------------------------------------------------------------------------
// Gaps
// ---------------------------------------------------------------------------

/// Spaces are skipped.
pub proof fn lemma_skip_spaces(text: Seq<char>, g: Gap, n: nat)
    requires
        leaf::holds(text, g.pos, spaces(n)),
    ensures
        model::skip_gap(text, true, g) == model::skip_gap(
            text,
            true,
            Gap { pos: g.pos + n, separated: g.separated || n > 0, ..g },
        ),
    decreases n,
{
    if n > 0 {
        assert(text[g.pos + 0] == spaces(n)[0]);
        let next = Gap { pos: g.pos + 1, separated: true, ..g };
        assert(leaf::holds(text, next.pos, spaces((n - 1) as nat))) by {
            assert forall|k: int| 0 <= k < n - 1 implies text[next.pos + k] == #[trigger] spaces(
                (n - 1) as nat,
            )[k] by {
                assert(text[g.pos + (k + 1)] == spaces(n)[k + 1]);
            }
        }
        lemma_skip_spaces(text, next, (n - 1) as nat);
    }
}

/// A comment and the line break behind it are skipped.
proof fn lemma_skip_note(text: Seq<char>, g: Gap, note: Option<Seq<char>>)
    requires
        is_note(note),
        leaf::holds(text, g.pos, note_text(note) + seq!['\n']),
        note is Some ==> g.separated,
    ensures
        model::skip_gap(text, true, g) == model::skip_gap(
            text,
            true,
            Gap {
                pos: g.pos + note_text(note).len() + 1,
                separated: true,
                key_allowed: true,
                at_line_start: true,
                tab_in_indent: false,
            },
        ),
{
    let t = note_text(note);
    leaf::lemma_holds(text, g.pos, t, seq!['\n']);
    let e = g.pos + t.len();
    assert(text[e + 0] == seq!['\n'][0]);
    match note {
        None => {},
        Some(c) => {
            assert(text[g.pos + 0] == t[0]);
            assert forall|j: int| g.pos <= j < e implies lex::in_run(Run::Line, text, j) by {
                assert(text[g.pos + (j - g.pos)] == t[j - g.pos]);
                if j > g.pos {
                    assert(t[j - g.pos] == c[j - g.pos - 1]);
                }
            }
            lex::lemma_run_is(Run::Line, text, g.pos, e);
            let at = Gap { pos: e, ..g };
            assert(model::skip_gap(text, true, g) == model::skip_gap(text, true, at));
        },
    }
}

proof fn lemma_skip_lines(text: Seq<char>, g: Gap, more: Seq<(nat, Option<Seq<char>>)>, i: int)
    requires
        0 <= i <= more.len(),
        forall|j: int| 0 <= j < more.len() ==> is_note((#[trigger] more[j]).1),
        leaf::holds(text, g.pos, lines_text(more, i)),
        g.separated,
        g.key_allowed,
        g.at_line_start,
        !g.tab_in_indent,
    ensures
        model::skip_gap(text, true, g) == model::skip_gap(
            text,
            true,
            Gap { pos: g.pos + lines_text(more, i).len(), ..g },
        ),
    decreases more.len() - i,
{
    if i < more.len() {
        let (n, note) = more[i];
        let tail = lines_text(more, i + 1);
        let body = note_text(note) + (seq!['\n'] + tail);
        leaf::lemma_holds(text, g.pos, spaces(n), body);
        assert(body == note_text(note) + seq!['\n'] + tail);
        leaf::lemma_holds(text, g.pos + n, note_text(note) + seq!['\n'], tail);
        lemma_skip_spaces(text, g, n);
        let at = Gap { pos: g.pos + n, separated: g.separated || n > 0, ..g };
        lemma_skip_note(text, at, note);
        let next = Gap { pos: at.pos + note_text(note).len() + 1, ..g };
        lemma_skip_lines(text, next, more, i + 1);
    }
}

proof fn lemma_skip_rest(text: Seq<char>, g: Gap, r: Rest)
    requires
        is_rest(r),
        leaf::holds(text, g.pos, rest_text(r)),
    ensures
        model::skip_gap(text, true, g) == model::skip_gap(
            text,
            true,
            Gap {
                pos: g.pos + rest_text(r).len(),
                separated: true,
                key_allowed: true,
                at_line_start: true,
                tab_in_indent: false,
            },
        ),
{
    let n: nat = if r.note is Some {
        1
    } else {
        0
    };
    let lead = spaces(n);
    let tail = lines_text(r.more, 0);
    let body = note_text(r.note) + (seq!['\n'] + tail);
    assert(rest_text(r) == lead + body);
    leaf::lemma_holds(text, g.pos, lead, body);
    assert(body == note_text(r.note) + seq!['\n'] + tail);
    leaf::lemma_holds(text, g.pos + n, note_text(r.note) + seq!['\n'], tail);
    lemma_skip_spaces(text, g, n);
    let at = Gap { pos: g.pos + n, separated: g.separated || n > 0, ..g };
    lemma_skip_note(text, at, r.note);
    let next = Gap {
        pos: at.pos + note_text(r.note).len() + 1,
        separated: true,
        key_allowed: true,
        at_line_start: true,
        tab_in_indent: false,
    };
    lemma_skip_lines(text, next, r.more, 0);
}

/// The scanner stands outside flow collections in a document without directives.
pub open spec fn is_open(st: ScanState) -> bool {
    &&& st.started
    &&& !st.ended
    &&& st.flow_depth == 0
    &&& !st.pending_directives
    &&& !st.tab_in_indent
    &&& st.handles == properties::default_handles()
    &&& 0 <= st.pos
}

/// The marked key begins on this line.
pub open spec fn key_here(text: Seq<char>, st: ScanState) -> bool {
    st.key matches Some(k) ==> on_line(text, k.at, st.pos) && k.at < st.pos
}

/// Spaces before the next token.
pub proof fn lemma_space_gap(text: Seq<char>, st: ScanState, n: nat)
    requires
        is_open(st),
        key_here(text, st),
        leaf::holds(text, st.pos, spaces(n)),
        words::token_starts(text, st.pos + n),
    ensures
        model::after_gap(text, st) == Ok::<ScanState, Failure>(
            ScanState { pos: st.pos + n, at_line_start: false, ..st },
        ),
{
    let before = Gap {
        pos: st.pos,
        separated: reader::position_at(text, st.pos).column == 1,
        key_allowed: st.key_allowed,
        at_line_start: st.at_line_start,
        tab_in_indent: st.tab_in_indent,
    };
    lemma_skip_spaces(text, before, n);
    let g = Gap { pos: st.pos + n, separated: before.separated || n > 0, ..before };
    assert(model::skip_gap(text, true, g) == Ok::<Gap, lex::Stop>(Gap { at_line_start: false, ..g }));
    if let Some(k) = st.key {
        assert(words::is_line(spaces(n)));
        lemma_line_text(text, st.pos, spaces(n));
        lemma_line(text, k.at, st.pos);
        lemma_line(text, st.pos, st.pos + n);
    }
}

/// The end of a line before the next token or the end of the text.
pub proof fn lemma_rest_gap(text: Seq<char>, st: ScanState, r: Rest, n: nat)
    requires
        is_open(st),
        key_here(text, st),
        is_rest(r),
        text.len() <= usize::MAX,
        leaf::holds(text, st.pos, rest_text(r)),
        leaf::holds(text, st.pos + rest_text(r).len(), spaces(n)),
        ({
            let p = st.pos + rest_text(r).len() + n;
            p == text.len() || words::token_starts(text, p)
        }),
    ensures
        model::after_gap(text, st) == Ok::<ScanState, Failure>(
            ScanState {
                pos: st.pos + rest_text(r).len() + n,
                key_allowed: true,
                at_line_start: false,
                key: None,
                ..st
            },
        ),
{
    let before = Gap {
        pos: st.pos,
        separated: reader::position_at(text, st.pos).column == 1,
        key_allowed: st.key_allowed,
        at_line_start: st.at_line_start,
        tab_in_indent: st.tab_in_indent,
    };
    lemma_skip_rest(text, before, r);
    let end = st.pos + rest_text(r).len();
    let next = Gap {
        pos: end,
        separated: true,
        key_allowed: true,
        at_line_start: true,
        tab_in_indent: false,
    };
    lemma_skip_spaces(text, next, n);
    let p = end + n;
    let g = Gap { pos: p, ..next };
    assert(model::skip_gap(text, true, g) == Ok::<Gap, lex::Stop>(Gap { at_line_start: false, ..g }));
    if let Some(k) = st.key {
        let b = lemma_rest_break(text, st.pos, r);
        lemma_lines(text, k.at, b);
        lemma_lines(text, b + 1, p);
        reader::lemma_counts(text, k.at);
    }
}

/// The end of a line holds a line break.
proof fn lemma_rest_break(text: Seq<char>, i: int, r: Rest) -> (b: int)
    requires
        leaf::holds(text, i, rest_text(r)),
    ensures
        i <= b < i + rest_text(r).len(),
        text[b] == '\n',
        reader::line_at(text, b + 1) == reader::line_at(text, b) + 1,
{
    let lead = if r.note is Some {
        seq![' ']
    } else {
        Seq::empty()
    };
    let b = lead.len() + note_text(r.note).len();
    assert(rest_text(r)[b as int] == '\n');
    assert(text[i + b] == rest_text(r)[b as int]);
    i + b
}

/// Lines without content are skipped until a comment or the content after them.
proof fn lemma_blank_lines(text: Seq<char>, i: int, more: Seq<(nat, Option<Seq<char>>)>, j: int, n: nat)
    requires
        0 <= j <= more.len(),
        leaf::holds(text, i, lines_text(more, j)),
        leaf::holds(text, i + lines_text(more, j).len(), spaces(n)),
        ({
            let p = i + lines_text(more, j).len() + n;
            p == text.len() || words::token_starts(text, p)
        }),
    ensures
        ({
            let q = lex::blank_lines(text, i).0;
            q == i + lines_text(more, j).len() + n || 0 <= q < text.len() && text[q] == '#'
        }),
    decreases more.len() - j,
{
    if j < more.len() {
        let (m, note) = more[j];
        let tail = lines_text(more, j + 1);
        let body = note_text(note) + (seq!['\n'] + tail);
        leaf::lemma_holds(text, i, spaces(m), body);
        leaf::lemma_holds(text, i + m, note_text(note), seq!['\n'] + tail);
        leaf::lemma_holds(text, i + m + note_text(note).len(), seq!['\n'], tail);
        let q = i + m;
        match note {
            None => {
                assert(text[q + 0] == seq!['\n'][0]);
                lemma_blanks(text, i, m);
                lemma_blank_lines(text, q + 1, more, j + 1, n);
                assert(lex::after_break(text, q) == q + 1);
            },
            Some(c) => {
                assert(text[q + 0] == note_text(note)[0]);
                lemma_blanks(text, i, m);
            },
        }
    } else {
        lemma_blanks(text, i, n);
    }
}

proof fn lemma_blanks(text: Seq<char>, i: int, n: nat)
    requires
        leaf::holds(text, i, spaces(n)),
        i + n == text.len() || text[i + n] != ' ' && text[i + n] != '\t',
    ensures
        lex::run_end(Run::Blanks, text, i) == i + n,
{
    assert forall|j: int| i <= j < i + n implies lex::in_run(Run::Blanks, text, j) by {
        assert(text[i + (j - i)] == spaces(n)[j - i]);
    }
    lex::lemma_run_is(Run::Blanks, text, i, i + n);
}

/// A scalar ends where its line does, when the next content is no deeper than `indent`.
pub proof fn lemma_rest_ends(text: Seq<char>, e: int, r: Rest, n: nat, indent: int)
    requires
        leaf::holds(text, e, rest_text(r)),
        leaf::holds(text, e + rest_text(r).len(), spaces(n)),
        ({
            let p = e + rest_text(r).len() + n;
            p == text.len() || words::token_starts(text, p) && (lex::indent_at(text, p) <= indent
                || lex::any_marker_at(text, p))
        }),
    ensures
        words::ends_word(text, e, indent),
{
    let tail = lines_text(r.more, 0);
    let body = note_text(r.note) + (seq!['\n'] + tail);
    match r.note {
        Some(c) => {
            leaf::lemma_holds(text, e, seq![' '], body);
            assert(text[e + 0] == seq![' '][0]);
            assert(text[e + 1 + 0] == body[0]);
        },
        None => {
            assert(rest_text(r) == seq!['\n'] + tail);
            leaf::lemma_holds(text, e, seq!['\n'], tail);
            assert(text[e + 0] == seq!['\n'][0]);
            lemma_blank_lines(text, e + 1, r.more, 0, n);
        },
    }
}

// ---------------------------------------------------------------------------
// Pieces
// ---------------------------------------------------------------------------

proof fn lemma_doubled_line(s: Seq<char>)
    requires
        words::is_line(s),
    ensures
        words::is_line(words::doubled(s)),
    decreases s.len(),
{
    if s.len() > 0 {
        assert(words::is_line(s.drop_last()));
        assert(s[s.len() - 1] == s.last());
        lemma_doubled_line(s.drop_last());
    }
}

proof fn lemma_glyphs_line(gs: Seq<Glyph>)
    requires
        forall|i: int| 0 <= i < gs.len() ==> words::is_glyph(#[trigger] gs[i]),
    ensures
        words::is_line(words::glyphs_text(gs)),
    decreases gs.len(),
{
    if gs.len() > 0 {
        assert forall|i: int| 0 <= i < gs.drop_last().len() implies words::is_glyph(
            #[trigger] gs.drop_last()[i],
        ) by {
            assert(gs.drop_last()[i] == gs[i]);
        }
        lemma_glyphs_line(gs.drop_last());
        assert(words::is_glyph(gs[gs.len() - 1]));
        assert(words::is_line(words::glyph_text(gs.last()))) by {
            match gs.last() {
                Glyph::Coded(c, ds) => {
                    assert forall|i: int| 0 <= i < words::glyph_text(gs.last()).len() implies
                        #[trigger] words::glyph_text(gs.last())[i] != '\n' && words::glyph_text(
                        gs.last(),
                    )[i] != '\r' by {
                        if i >= 2 {
                            assert(words::glyph_text(gs.last())[i] == ds[i - 2]);
                        }
                    }
                },
                _ => {},
            }
        }
    }
}

/// No piece holds a line break.
pub proof fn lemma_piece_line(p: Piece)
    requires
        words::is_piece(p),
    ensures
        words::is_line(words::piece_text(p)),
        words::piece_text(p).len() > 0,
{
    let t = words::piece_text(p);
    match p {
        Piece::Word(Word::Single(s)) => {
            lemma_doubled_line(s);
        },
        Piece::Word(Word::Double(gs)) => {
            lemma_glyphs_line(gs);
        },
        Piece::Word(Word::Plain(_)) => {},
        Piece::Anchor(name) | Piece::Alias(name) | Piece::Local(name) => {
            assert forall|i: int| 0 <= i < t.len() implies #[trigger] t[i] != '\n' && t[i]
                != '\r' by {
                if i >= 1 {
                    assert(t[i] == name[i - 1]);
                }
            }
        },
        Piece::Standard(name) => {
            assert forall|i: int| 0 <= i < t.len() implies #[trigger] t[i] != '\n' && t[i]
                != '\r' by {
                if i >= 2 {
                    assert(t[i] == name[i - 2]);
                }
            }
        },
        Piece::Verbatim(uri) => {
            assert forall|i: int| 0 <= i < t.len() implies #[trigger] t[i] != '\n' && t[i]
                != '\r' by {
                if 2 <= i < t.len() - 1 {
                    assert(t[i] == uri[i - 2]);
                }
            }
        },
    }
}

/// What follows a piece: a scalar ends where `ends_word` says, anything else where a name
/// does.
pub open spec fn ends_piece(text: Seq<char>, e: int, p: Piece, indent: int) -> bool {
    if p is Word {
        words::ends_word(text, e, indent)
    } else {
        words::ends_name(text, e)
    }
}

/// The character can begin a mapping key.
pub open spec fn begins_key(c: char) -> bool {
    c != '-' && c != '?' && c != ':'
}

/// A piece is scanned as its token.
pub proof fn lemma_piece(text: Seq<char>, at: ScanState, p: Piece) -> (out: Produced)
    requires
        words::is_piece(p),
        leaf::holds(text, at.pos, words::piece_text(p)),
        at.flow_depth == 0,
        at.handles == properties::default_handles(),
        ends_piece(text, at.pos + words::piece_text(p).len(), p, at.indent),
    ensures
        words::token_starts(text, at.pos),
        text[at.pos] != '%',
        model::starts_key(text[at.pos]) == begins_key(text[at.pos]),
        text[at.pos] == words::piece_text(p)[0],
        model::content(text, at) == Ok::<Produced, Failure>(out),
        out.st == (ScanState { pos: at.pos + words::piece_text(p).len(), ..at }),
        out.tok.kind == words::piece_lexeme(p),
        out.tok.span.start == reader::position_at(text, at.pos),
        out.tok.span.end == reader::position_at(text, at.pos + words::piece_text(p).len()),
{
    let t = words::piece_text(p);
    let i = at.pos;
    lemma_piece_line(p);
    assert(text[i + 0] == t[0]);
    match p {
        Piece::Word(Word::Single(s)) => {
            words::lemma_single(text, i, s);
        },
        Piece::Word(Word::Double(gs)) => {
            words::lemma_double(text, i, gs);
        },
        Piece::Word(Word::Plain(s)) => {
            words::lemma_plain(text, i, s, at.indent);
            assert(s[0] != ',');
            if s.len() > 1 {
                assert(text[i + 1] == s[1]);
                assert(s[1] != ',' && s[1] != '\n');
            }
            if s.len() > 2 {
                assert(text[i + 2] == s[2]);
            }
            if s.len() > 3 {
                assert(text[i + 3] == s[3]);
                assert(s[3] != '\n');
            }
        },
        Piece::Anchor(name) => {
            leaf::lemma_holds(text, i, seq!['&'], name);
            words::lemma_name(text, i, name, true);
        },
        Piece::Alias(name) => {
            leaf::lemma_holds(text, i, seq!['*'], name);
            words::lemma_name(text, i, name, false);
        },
        _ => {
            words::lemma_tag(text, i, p);
        },
    }
    model::content(text, at)->Ok_0
}

/// The token of a scalar, a property or an alias covers its text, from the first character
/// to behind the last.
pub proof fn law_tokens_cover_their_text(text: Seq<char>, at: ScanState, p: Piece)
    requires
        words::is_piece(p),
        leaf::holds(text, at.pos, words::piece_text(p)),
        at.flow_depth == 0,
        at.handles == properties::default_handles(),
        ends_piece(text, at.pos + words::piece_text(p).len(), p, at.indent),
    ensures
        model::content(text, at) matches Ok(out) && {
            &&& out.tok.kind == words::piece_lexeme(p)
            &&& out.tok.span.start == reader::position_at(text, at.pos)
            &&& out.tok.span.end == reader::position_at(
                text,
                at.pos + words::piece_text(p).len(),
            )
        },
{
    lemma_piece(text, at, p);
}

/// The columns of the open block collections, outermost first, with -1 before them.
pub open spec fn stack(st: ScanState) -> Seq<int> {
    st.indents.push(st.indent)
}

/// A piece behind a gap: its token follows the ends of the collections that are deeper than
/// it, and a key may be marked at it.
pub proof fn lemma_fetch_piece(text: Seq<char>, limits: Limits, st: ScanState, at: ScanState, p: Piece) -> (next:
    ScanState)
    requires
        model::inside(text, st),
        is_open(st),
        is_open(at),
        key_here(text, at) || at.key_allowed,
        model::after_gap(text, st) == Ok::<ScanState, Failure>(at),
        words::is_piece(p),
        leaf::holds(text, at.pos, words::piece_text(p)),
        ends_piece(
            text,
            at.pos + words::piece_text(p).len(),
            p,
            model::unrolled(text, at, lex::indent_at(text, at.pos)).indent,
        ),
    ensures
        model::run(text, limits, st) == model::run(text, limits, next),
        is_open(next),
        !next.key_allowed,
        next.pos == at.pos + words::piece_text(p).len(),
        next.pos <= text.len(),
        ({
            let level = model::unrolled(text, at, lex::indent_at(text, at.pos));
            &&& scan::kinds(next.out) == scan::kinds(level.out) + seq![words::piece_lexeme(p)]
            &&& stack(next) == stack(level)
            &&& next.key == if at.key_allowed && begins_key(words::piece_text(p)[0]) {
                Some(KeyMark { number: level.out.len() as int, at: at.pos })
            } else {
                at.key
            }
        }),
        at.key_allowed && (at.key is None) || key_here(text, at) ==> key_here(text, next),
{
    let col = lex::indent_at(text, at.pos);
    let level = model::unrolled(text, at, col);
    model::lemma_unrolled(text, at, col);
    let marked = model::key_marked(text, level);
    let out = lemma_piece(text, marked, p);
    lemma_piece_line(p);
    lemma_line_text(text, at.pos, words::piece_text(p));
    let next = model::token_added(text, at.pos, out)->Ok_0;
    assert(model::token_step(text, at) == Ok::<ScanState, Failure>(next));
    assert(model::fetch(text, limits, st) == Ok::<ScanState, Failure>(next));
    assert(scan::kinds(next.out) == scan::kinds(level.out) + seq![words::piece_lexeme(p)]);
    next
}

/// The pieces of a node, one space between each two, from piece `i` on.
pub open spec fn pieces_text(ps: Seq<Piece>, i: int) -> Seq<char>
    decreases ps.len() - i,
{
    if 0 <= i < ps.len() {
        (if i > 0 {
            seq![' ']
        } else {
            Seq::empty()
        }) + (words::piece_text(ps[i]) + pieces_text(ps, i + 1))
    } else {
        Seq::empty()
    }
}

/// The tokens of the pieces of a node from piece `i` on.
pub open spec fn pieces_lexemes(ps: Seq<Piece>, i: int) -> Seq<Lexeme>
    decreases ps.len() - i,
{
    if 0 <= i < ps.len() {
        seq![words::piece_lexeme(ps[i])] + pieces_lexemes(ps, i + 1)
    } else {
        Seq::empty()
    }
}

/// An anchor or a tag.
pub open spec fn is_property(p: Piece) -> bool {
    words::is_piece(p) && !(p is Word) && !(p is Alias)
}

/// Properties, and then at most one piece of another kind.
pub open spec fn are_pieces(ps: Seq<Piece>) -> bool {
    &&& ps.len() > 0
    &&& forall|i: int| 0 <= i < ps.len() - 1 ==> is_property(#[trigger] ps[i])
    &&& words::is_piece(ps[ps.len() - 1])
}

/// The pieces behind the first.
pub proof fn lemma_more_pieces(
    text: Seq<char>,
    limits: Limits,
    st: ScanState,
    ps: Seq<Piece>,
    i: int,
) -> (next: ScanState)
    requires
        model::inside(text, st),
        is_open(st),
        key_here(text, st),
        !st.key_allowed,
        text.len() <= usize::MAX,
        are_pieces(ps),
        1 <= i <= ps.len(),
        leaf::holds(text, st.pos, pieces_text(ps, i)),
        reader::column_at(text, st.pos) > st.indent + 1,
        ends_piece(text, st.pos + pieces_text(ps, i).len(), ps[ps.len() - 1], st.indent),
    ensures
        model::run(text, limits, st) == model::run(text, limits, next),
        is_open(next),
        key_here(text, next),
        next.key == st.key,
        !next.key_allowed,
        next.pos == st.pos + pieces_text(ps, i).len(),
        next.pos <= text.len(),
        scan::kinds(next.out) == scan::kinds(st.out) + pieces_lexemes(ps, i),
        stack(next) == stack(st),
    decreases ps.len() - i,
{
    if i == ps.len() {
        assert(pieces_lexemes(ps, i) == Seq::<Lexeme>::empty());
        st
    } else {
        let p = ps[i];
        let tail = pieces_text(ps, i + 1);
        let t = words::piece_text(p);
        assert(words::is_piece(p));
        leaf::lemma_holds(text, st.pos, seq![' '], t + tail);
        leaf::lemma_holds(text, st.pos + 1, t, tail);
        assert(spaces(1) == seq![' ']);
        let at = ScanState { pos: st.pos + 1, at_line_start: false, ..st };
        let e = at.pos + t.len();
        lemma_tail(text, ps, i, e, st.indent);
        lemma_line_text(text, st.pos, spaces(1));
        lemma_line(text, st.pos, at.pos);
        lemma_piece(text, at, p);
        lemma_space_gap(text, st, 1);
        lemma_piece_line(p);
        reader::lemma_counts(text, at.pos);
        assert(model::unrolled(text, at, lex::indent_at(text, at.pos)) == at);
        let mid = lemma_fetch_piece(text, limits, st, at, p);
        assert(stack(mid).last() == mid.indent && stack(st).last() == st.indent);
        lemma_line_text(text, at.pos, t);
        lemma_line(text, at.pos, mid.pos);
        let next = lemma_more_pieces(text, limits, mid, ps, i + 1);
        assert(scan::kinds(next.out) == scan::kinds(st.out) + pieces_lexemes(ps, i));
        next
    }
}

/// What follows piece `i` ends it.
proof fn lemma_tail(text: Seq<char>, ps: Seq<Piece>, i: int, e: int, indent: int)
    requires
        are_pieces(ps),
        0 <= i < ps.len(),
        leaf::holds(text, e, pieces_text(ps, i + 1)),
        ends_piece(text, e + pieces_text(ps, i + 1).len(), ps[ps.len() - 1], indent),
    ensures
        ends_piece(text, e, ps[i], indent),
{
    let tail = pieces_text(ps, i + 1);
    if i + 1 < ps.len() {
        assert(is_property(ps[i]));
        assert(tail[0] == ' ');
        assert(text[e + 0] == tail[0]);
    }
}

/// The pieces of a node behind a gap.
pub proof fn lemma_pieces(
    text: Seq<char>,
    limits: Limits,
    st: ScanState,
    at: ScanState,
    ps: Seq<Piece>,
) -> (next: ScanState)
    requires
        model::inside(text, st),
        is_open(st),
        is_open(at),
        at.key is None,
        model::after_gap(text, st) == Ok::<ScanState, Failure>(at),
        text.len() <= usize::MAX,
        are_pieces(ps),
        leaf::holds(text, at.pos, pieces_text(ps, 0)),
        ends_piece(
            text,
            at.pos + pieces_text(ps, 0).len(),
            ps[ps.len() - 1],
            model::unrolled(text, at, lex::indent_at(text, at.pos)).indent,
        ),
        model::unrolled(text, at, lex::indent_at(text, at.pos)).indent < reader::column_at(
            text,
            at.pos,
        ),
    ensures
        model::run(text, limits, st) == model::run(text, limits, next),
        is_open(next),
        key_here(text, next),
        !next.key_allowed,
        next.pos == at.pos + pieces_text(ps, 0).len(),
        next.pos <= text.len(),
        ({
            let level = model::unrolled(text, at, lex::indent_at(text, at.pos));
            &&& scan::kinds(next.out) == scan::kinds(level.out) + pieces_lexemes(ps, 0)
            &&& stack(next) == stack(level)
            &&& next.key == if at.key_allowed && begins_key(words::piece_text(ps[0])[0]) {
                Some(KeyMark { number: level.out.len() as int, at: at.pos })
            } else {
                None
            }
        }),
        on_line(text, at.pos, next.pos),
{
    let p = ps[0];
    let t = words::piece_text(p);
    let tail = pieces_text(ps, 1);
    let level = model::unrolled(text, at, lex::indent_at(text, at.pos));
    assert(pieces_text(ps, 0) == t + tail);
    leaf::lemma_holds(text, at.pos, t, tail);
    assert(words::is_piece(p));
    lemma_tail(text, ps, 0, at.pos + t.len(), level.indent);
    let mid = lemma_fetch_piece(text, limits, st, at, p);
    assert(stack(mid).last() == mid.indent && stack(level).last() == level.indent);
    lemma_piece_line(p);
    lemma_line_text(text, at.pos, t);
    lemma_line(text, at.pos, mid.pos);
    lemma_pieces_line(ps, 0);
    lemma_line_text(text, at.pos, pieces_text(ps, 0));
    let next = lemma_more_pieces(text, limits, mid, ps, 1);
    assert(scan::kinds(next.out) == scan::kinds(level.out) + pieces_lexemes(ps, 0));
    next
}

/// The pieces of a node lie on one line.
pub proof fn lemma_pieces_line(ps: Seq<Piece>, i: int)
    requires
        are_pieces(ps),
        0 <= i <= ps.len(),
    ensures
        words::is_line(pieces_text(ps, i)),
        i < ps.len() ==> pieces_text(ps, i).len() > 0,
    decreases ps.len() - i,
{
    if i < ps.len() {
        assert(words::is_piece(ps[i])) by {
            if i < ps.len() - 1 {
                assert(is_property(ps[i]));
            }
        }
        lemma_piece_line(ps[i]);
        lemma_pieces_line(ps, i + 1);
    }
}

} // verus!
