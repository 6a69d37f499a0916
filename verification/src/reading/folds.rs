//! Scalars over several lines: how their lines are put together.

use crate::reading::flow;
use crate::reading::steps;
use crate::reading::words;
use crate::reading::words::Word;
use crate::roundtrip::leaf;
use crate::scanner::lex;
use crate::scanner::lex::{Run, Stop};
use crate::scanner::plain;
use crate::scanner::plain::PlainScalar;
use crate::scanner::quoted;
use crate::scanner::reader;
use crate::text;
use vstd::prelude::*;

verus! {

// ---------------------------------------------------------------------------
// Between lines
// ---------------------------------------------------------------------------

/// What stands between two lines of a scalar: blanks at the end of the first, lines of
/// blanks, and blanks at the start of the second.
pub struct Fold {
    pub before: Seq<char>,
    pub empty: Seq<Seq<char>>,
    pub after: Seq<char>,
}

pub open spec fn are_blanks(s: Seq<char>) -> bool {
    forall|i: int| 0 <= i < s.len() ==> words::is_white(#[trigger] s[i])
}

pub open spec fn is_fold(f: Fold) -> bool {
    &&& are_blanks(f.before)
    &&& are_blanks(f.after)
    &&& forall|i: int| 0 <= i < f.empty.len() ==> are_blanks(#[trigger] f.empty[i])
}

pub open spec fn empty_text(empty: Seq<Seq<char>>, i: int) -> Seq<char>
    decreases empty.len() - i,
{
    if 0 <= i < empty.len() {
        empty[i] + (seq!['\n'] + empty_text(empty, i + 1))
    } else {
        Seq::empty()
    }
}

pub open spec fn fold_text(f: Fold) -> Seq<char> {
    f.before + (seq!['\n'] + (empty_text(f.empty, 0) + f.after))
}

/// A line break alone is a space. With lines of blanks it is as many line breaks as they are.
pub open spec fn fold_value(f: Fold) -> Seq<char> {
    if f.empty.len() == 0 {
        seq![' ']
    } else {
        Seq::new(f.empty.len(), |i: int| '\n')
    }
}

proof fn lemma_blank_run(text: Seq<char>, i: int, s: Seq<char>)
    requires
        leaf::holds(text, i, s),
        are_blanks(s),
        i + s.len() == text.len() || !words::is_white(text[i + s.len()]),
    ensures
        lex::run_end(Run::Blanks, text, i) == i + s.len(),
{
    let e = i + s.len();
    assert forall|j: int| i <= j < e implies lex::in_run(Run::Blanks, text, j) by {
        assert(text[i + (j - i)] == s[j - i]);
    }
    lex::lemma_run_is(Run::Blanks, text, i, e);
}

/// Lines of blanks are counted.
proof fn lemma_empty_lines(text: Seq<char>, i: int, empty: Seq<Seq<char>>, j: int, after: Seq<char>)
    requires
        0 <= j <= empty.len(),
        forall|k: int| 0 <= k < empty.len() ==> are_blanks(#[trigger] empty[k]),
        are_blanks(after),
        leaf::holds(text, i, empty_text(empty, j) + after),
        ({
            let e = i + empty_text(empty, j).len() + after.len();
            e < text.len() && !words::is_white(text[e]) && text[e] != '\n' && text[e] != '\r'
        }),
    ensures
        lex::blank_lines(text, i) == (
            i + empty_text(empty, j).len() + after.len(),
            (empty.len() - j) as nat,
        ),
    decreases empty.len() - j,
{
    if j < empty.len() {
        let line = empty[j];
        let tail = empty_text(empty, j + 1);
        assert(are_blanks(line));
        assert(empty_text(empty, j) + after == line + (seq!['\n'] + (tail + after)));
        leaf::lemma_holds(text, i, line, seq!['\n'] + (tail + after));
        leaf::lemma_holds(text, i + line.len(), seq!['\n'], tail + after);
        let b = i + line.len();
        assert(text[b + 0] == seq!['\n'][0]);
        lemma_blank_run(text, i, line);
        assert(lex::after_break(text, b) == b + 1);
        lemma_empty_lines(text, b + 1, empty, j + 1, after);
    } else {
        assert(empty_text(empty, j) + after == after);
        lemma_blank_run(text, i, after);
    }
}

/// Where the parts of a fold stand, and what the scanner counts behind its line break.
proof fn lemma_fold(text: Seq<char>, i: int, f: Fold)
    requires
        is_fold(f),
        leaf::holds(text, i, fold_text(f)),
        ({
            let e = i + fold_text(f).len();
            e < text.len() && !words::is_white(text[e]) && text[e] != '\n' && text[e] != '\r'
        }),
    ensures
        leaf::holds(text, i, f.before),
        text[i + f.before.len()] == '\n',
        i + f.before.len() < text.len(),
        lex::after_break(text, i + f.before.len()) == i + f.before.len() + 1,
        lex::blank_lines(text, i + f.before.len() + 1) == (i + fold_text(f).len(), f.empty.len()),
        lex::fold_text(f.empty.len()) == fold_value(f),
        reader::column_at(text, i + fold_text(f).len()) == f.after.len() + 1,
{
    let tail = empty_text(f.empty, 0) + f.after;
    leaf::lemma_holds(text, i, f.before, seq!['\n'] + tail);
    let b = i + f.before.len();
    leaf::lemma_holds(text, b, seq!['\n'], tail);
    assert(text[b + 0] == seq!['\n'][0]);
    lemma_empty_lines(text, b + 1, f.empty, 0, f.after);
    leaf::lemma_holds(text, b + 1, empty_text(f.empty, 0), f.after);
    let s = b + 1 + empty_text(f.empty, 0).len();
    lemma_empty_end(f.empty, 0);
    assert(text[s - 1] == '\n') by {
        if f.empty.len() > 0 {
            let t = empty_text(f.empty, 0);
            assert(text[b + 1 + (t.len() - 1)] == t[t.len() - 1]);
        }
    }
    assert(words::is_line(f.after)) by {
        assert forall|k: int| 0 <= k < f.after.len() implies #[trigger] f.after[k] != '\n'
            && f.after[k] != '\r' by {
            assert(words::is_white(f.after[k]));
        }
    }
    steps::lemma_line_text(text, s, f.after);
    steps::lemma_line(text, s, s + f.after.len());
    assert(lex::fold_text(f.empty.len()) =~= fold_value(f));
}

proof fn lemma_empty_end(empty: Seq<Seq<char>>, j: int)
    requires
        0 <= j <= empty.len(),
    ensures
        j < empty.len() ==> empty_text(empty, j).len() > 0 && empty_text(empty, j).last() == '\n',
    decreases empty.len() - j,
{
    if j < empty.len() {
        lemma_empty_end(empty, j + 1);
        let tail = empty_text(empty, j + 1);
        let t = empty_text(empty, j);
        assert(t == empty[j] + (seq!['\n'] + tail));
        if j + 1 < empty.len() {
            assert(t.last() == tail.last());
        } else {
            assert(tail == Seq::<char>::empty());
            assert(t.last() == '\n');
        }
    }
}

/// Blanks at the end are dropped.
proof fn lemma_trim(s: Seq<char>, blanks: Seq<char>)
    requires
        are_blanks(blanks),
        s.len() == 0 || !words::is_white(s.last()),
    ensures
        text::trim_blanks(s + blanks) == s,
    decreases blanks.len(),
{
    if blanks.len() == 0 {
        assert(s + blanks == s);
    } else {
        assert(words::is_white(blanks[blanks.len() - 1]));
        assert((s + blanks).drop_last() == s + blanks.drop_last());
        assert forall|i: int| 0 <= i < blanks.drop_last().len() implies words::is_white(
            #[trigger] blanks.drop_last()[i],
        ) by {
            assert(words::is_white(blanks[i]));
        }
        lemma_trim(s, blanks.drop_last());
    }
}

// ---------------------------------------------------------------------------
// Quoted scalars
// ---------------------------------------------------------------------------

/// What a line of a quoted scalar is written as, without the quotes.
pub open spec fn inner(w: Word) -> Seq<char> {
    match w {
        Word::Plain(s) => s,
        Word::Single(s) => words::doubled(s),
        Word::Double(gs) => words::glyphs_text(gs),
    }
}

/// Three dashes or three dots at the start.
pub open spec fn looks_marked(s: Seq<char>) -> bool {
    s.len() >= 3 && (s[0] == '-' && s[1] == '-' && s[2] == '-' || s[0] == '.' && s[1] == '.' && s[2]
        == '.')
}

/// The lines of a quoted scalar and what stands between each two: a line begins and ends
/// with something that is not blank where another one is on that side. Only the first and
/// the last may be empty.
pub open spec fn are_lines(lines: Seq<Word>, folds: Seq<Fold>, single: bool) -> bool {
    &&& lines.len() == folds.len() + 1
    &&& forall|k: int| 0 <= k < folds.len() ==> is_fold(#[trigger] folds[k])
    &&& forall|k: int| #![trigger lines[k]]
        0 <= k < lines.len() ==> {
            let t = inner(lines[k]);
            let v = words::word_value(lines[k]);
            &&& words::is_word(lines[k])
            &&& if single {
                lines[k] is Single
            } else {
                lines[k] is Double
            }
            &&& k > 0 ==> t.len() == 0 && k == folds.len() || t.len() > 0 && !words::is_white(t[0])
            &&& k < folds.len() ==> v.len() == 0 && k == 0 || v.len() > 0 && !words::is_white(
                v.last(),
            )
            &&& k > 0 ==> folds[k - 1].after.len() > 0 || !looks_marked(t)
        }
}

/// The lines from line `k` on, as they are written.
pub open spec fn lines_text(lines: Seq<Word>, folds: Seq<Fold>, k: int) -> Seq<char>
    decreases folds.len() - k,
{
    if 0 <= k < folds.len() {
        inner(lines[k]) + (fold_text(folds[k]) + lines_text(lines, folds, k + 1))
    } else {
        inner(lines[k])
    }
}

/// The string that the lines from line `k` on make.
pub open spec fn lines_value(lines: Seq<Word>, folds: Seq<Fold>, k: int) -> Seq<char>
    decreases folds.len() - k,
{
    if 0 <= k < folds.len() {
        words::word_value(lines[k]) + (fold_value(folds[k]) + lines_value(lines, folds, k + 1))
    } else {
        words::word_value(lines[k])
    }
}

/// The quote around a scalar.
pub open spec fn quote(single: bool) -> char {
    if single {
        '\''
    } else {
        '"'
    }
}

spec fn scanned(single: bool, text: Seq<char>, start: int, i: int, had: Seq<char>) -> Result<
    (Seq<char>, int),
    Stop,
> {
    if single {
        quoted::single_quoted(text, start, i, had)
    } else {
        quoted::double_quoted(text, start, i, had)
    }
}

/// A line is gathered.
proof fn lemma_line_run(
    single: bool,
    text: Seq<char>,
    start: int,
    i: int,
    w: Word,
    had: Seq<char>,
)
    requires
        words::is_word(w),
        if single {
            w is Single
        } else {
            w is Double
        },
        leaf::holds(text, i, inner(w)),
    ensures
        scanned(single, text, start, i, had) == scanned(
            single,
            text,
            start,
            i + inner(w).len(),
            had + words::word_value(w),
        ),
{
    match w {
        Word::Single(s) => {
            assert(s.take(s.len() as int) == s);
            words::lemma_single_prefix(text, start, i, s, s.len() as int, had);
        },
        Word::Double(gs) => {
            assert(gs.take(gs.len() as int) == gs);
            words::lemma_double_prefix(text, start, i, gs, gs.len() as int, had);
        },
        Word::Plain(_) => {},
    }
}

/// Blanks are gathered.
proof fn lemma_blanks_run(
    single: bool,
    text: Seq<char>,
    start: int,
    i: int,
    s: Seq<char>,
    k: int,
    had: Seq<char>,
)
    requires
        0 <= k <= s.len(),
        are_blanks(s),
        leaf::holds(text, i, s),
    ensures
        scanned(single, text, start, i, had) == scanned(single, text, start, i + k, had + s.take(k)),
    decreases k,
{
    if k == 0 {
        assert(had + s.take(0) == had);
    } else {
        lemma_blanks_run(single, text, start, i, s, k - 1, had);
        assert(text[i + (k - 1)] == s[k - 1]);
        assert(words::is_white(s[k - 1]));
        assert((had + s.take(k - 1)).push(s[k - 1]) == had + s.take(k));
    }
}

/// Lines from line `k` on, and the quote behind them.
proof fn lemma_lines(
    single: bool,
    text: Seq<char>,
    start: int,
    i: int,
    lines: Seq<Word>,
    folds: Seq<Fold>,
    k: int,
    had: Seq<char>,
)
    requires
        are_lines(lines, folds, single),
        0 <= k < lines.len(),
        k == 0 ==> had.len() == 0,
        leaf::holds(text, i, lines_text(lines, folds, k) + seq![quote(single)]),
        reader::char_at(text, i + lines_text(lines, folds, k).len() + 1) != Some('\''),
    ensures
        scanned(single, text, start, i, had) == Ok::<(Seq<char>, int), Stop>(
            (
                had + lines_value(lines, folds, k),
                i + lines_text(lines, folds, k).len() + 1,
            ),
        ),
    decreases lines.len() - k,
{
    let w = lines[k];
    let t = inner(w);
    let v = words::word_value(w);
    let close = seq![quote(single)];
    if k == folds.len() {
        leaf::lemma_holds(text, i, t, close);
        lemma_line_run(single, text, start, i, w, had);
        assert(text[i + t.len() + 0] == close[0]);
    } else {
        let f = folds[k];
        let rest = lines_text(lines, folds, k + 1);
        assert(is_fold(f));
        assert(lines_text(lines, folds, k) + close == t + (fold_text(f) + (rest + close)));
        leaf::lemma_holds(text, i, t, fold_text(f) + (rest + close));
        let p = i + t.len();
        leaf::lemma_holds(text, p, fold_text(f), rest + close);
        let q = p + fold_text(f).len();
        lemma_line_run(single, text, start, i, w, had);
        lemma_next_line(single, text, q, lines, folds, k + 1);
        let so_far = had + v;
        let folded = so_far + fold_value(f);
        assert(so_far.len() == 0 || !words::is_white(so_far.last()));
        lemma_fold_step(single, text, start, p, f, so_far);
        lemma_lines(single, text, start, q, lines, folds, k + 1, folded);
        assert(folded + lines_value(lines, folds, k + 1) == had + lines_value(lines, folds, k));
    }
}

/// A fold is gathered as what it stands for.
proof fn lemma_fold_step(
    single: bool,
    text: Seq<char>,
    start: int,
    p: int,
    f: Fold,
    had: Seq<char>,
)
    requires
        is_fold(f),
        leaf::holds(text, p, fold_text(f)),
        ({
            let e = p + fold_text(f).len();
            &&& e < text.len() && !words::is_white(text[e]) && text[e] != '\n' && text[e] != '\r'
            &&& f.after.len() == 0 ==> !lex::any_marker_at(text, e)
        }),
        had.len() == 0 || !words::is_white(had.last()),
    ensures
        scanned(single, text, start, p, had) == scanned(
            single,
            text,
            start,
            p + fold_text(f).len(),
            had + fold_value(f),
        ),
{
    let q = p + fold_text(f).len();
    let b = p + f.before.len();
    lemma_fold(text, p, f);
    lemma_blanks_run(single, text, start, p, f.before, f.before.len() as int, had);
    assert(f.before.take(f.before.len() as int) == f.before);
    lemma_trim(had, f.before);
    let gathered = had + f.before;
    assert(!quoted::document_marker_at(text, q));
    assert(quoted::quoted_fold(text, start, b, gathered) == Ok::<(Seq<char>, int), Stop>(
        (had + fold_value(f), q),
    ));
}

/// Where a line begins: at something that is neither blank nor a document marker.
proof fn lemma_next_line(
    single: bool,
    text: Seq<char>,
    q: int,
    lines: Seq<Word>,
    folds: Seq<Fold>,
    k: int,
)
    requires
        are_lines(lines, folds, single),
        1 <= k < lines.len(),
        leaf::holds(text, q, lines_text(lines, folds, k) + seq![quote(single)]),
        0 <= q,
    ensures
        q < text.len(),
        !words::is_white(text[q]),
        text[q] != '\n' && text[q] != '\r',
        folds[k - 1].after.len() == 0 ==> !lex::any_marker_at(text, q),
{
    let w = lines[k];
    let t = inner(w);
    let all = lines_text(lines, folds, k) + seq![quote(single)];
    assert(text[q + 0] == all[0]);
    lemma_inner_line(w, single);
    if t.len() > 0 {
        assert(all[0] == t[0]);
    }
    if folds[k - 1].after.len() == 0 {
        if t.len() >= 3 {
            assert(all[0] == t[0] && all[1] == t[1] && all[2] == t[2]);
            assert(text[q + 1] == all[1] && text[q + 2] == all[2]);
        } else {
            let m = t.len() as int;
            assert(text[q + m] == all[m]);
            if k < folds.len() {
                let f = folds[k];
                assert(is_fold(f));
                lemma_fold_first(f);
                let ft = fold_text(f);
                assert(all == t + (ft + (lines_text(lines, folds, k + 1) + seq![quote(single)])));
                assert(all[m] == ft[0]);
            } else {
                assert(all[m] == quote(single));
            }
        }
    }
}

/// A fold begins with a blank or a line break.
proof fn lemma_fold_first(f: Fold)
    requires
        is_fold(f),
    ensures
        fold_text(f).len() > 0,
        words::is_white(fold_text(f)[0]) || fold_text(f)[0] == '\n',
{
    if f.before.len() > 0 {
        assert(words::is_white(f.before[0]));
        assert(fold_text(f)[0] == f.before[0]);
    }
}

/// A line of a quoted scalar holds no line break.
proof fn lemma_inner_line(w: Word, single: bool)
    requires
        words::is_word(w),
        if single {
            w is Single
        } else {
            w is Double
        },
    ensures
        words::is_line(inner(w)),
{
    let p = words::Piece::Word(w);
    let t = words::word_text(w);
    steps::lemma_piece_line(p);
    assert forall|k: int| 0 <= k < inner(w).len() implies #[trigger] inner(w)[k] != '\n' && inner(
        w,
    )[k] != '\r' by {
        assert(t[k + 1] == inner(w)[k]);
    }
}

/// A quoted scalar over several lines is its lines put together: blanks around a line break
/// are dropped, a line break alone is a space, and lines of blanks are line breaks.
pub proof fn law_quoted_lines_are_folded(
    text: Seq<char>,
    i: int,
    lines: Seq<Word>,
    folds: Seq<Fold>,
    single: bool,
)
    requires
        are_lines(lines, folds, single),
        0 <= i < text.len(),
        leaf::holds(text, i + 1, lines_text(lines, folds, 0) + seq![quote(single)]),
        reader::char_at(text, i + 2 + lines_text(lines, folds, 0).len()) != Some('\''),
    ensures
        single ==> quoted::single_quoted(text, i, i + 1, Seq::empty()) == Ok::<
            (Seq<char>, int),
            Stop,
        >((lines_value(lines, folds, 0), i + 2 + lines_text(lines, folds, 0).len())),
        !single ==> quoted::double_quoted(text, i, i + 1, Seq::empty()) == Ok::<
            (Seq<char>, int),
            Stop,
        >((lines_value(lines, folds, 0), i + 2 + lines_text(lines, folds, 0).len())),
{
    lemma_lines(single, text, i, i + 1, lines, folds, 0, Seq::empty());
    let v = lines_value(lines, folds, 0);
    assert(Seq::<char>::empty() + v == v);
}

/// A quoted scalar must not reach over a line that begins with a document marker.
pub proof fn law_markers_end_quotes(
    text: Seq<char>,
    i: int,
    w: Word,
    f: Fold,
    c: char,
)
    requires
        words::is_word(w),
        w is Single || w is Double,
        is_fold(f),
        f.after.len() == 0,
        c == '-' || c == '.',
        0 <= i < text.len(),
        leaf::holds(text, i + 1, inner(w) + (fold_text(f) + seq![c, c, c])),
        ({
            let e = i + 1 + inner(w).len() + fold_text(f).len() + 3;
            e == text.len() || words::is_white(text[e]) || text[e] == '\n'
        }),
    ensures
        w is Single ==> quoted::single_quoted(text, i, i + 1, Seq::empty()) is Err,
        w is Double ==> quoted::double_quoted(text, i, i + 1, Seq::empty()) is Err,
{
    let single = w is Single;
    let mark = seq![c, c, c];
    leaf::lemma_holds(text, i + 1, inner(w), fold_text(f) + mark);
    let p = i + 1 + inner(w).len();
    leaf::lemma_holds(text, p, fold_text(f), mark);
    let q = p + fold_text(f).len();
    assert(text[q + 0] == mark[0] && text[q + 1] == mark[1] && text[q + 2] == mark[2]);
    lemma_line_run(single, text, i, i + 1, w, Seq::empty());
    lemma_fold(text, p, f);
    let had = Seq::<char>::empty() + words::word_value(w);
    lemma_blanks_run(single, text, i, p, f.before, f.before.len() as int, had);
    let b = p + f.before.len();
    let gathered = had + f.before.take(f.before.len() as int);
    assert(lex::marker_at(text, q, c));
    assert(quoted::quoted_fold(text, i, b, gathered) is Err);
}

/// A backslash at the end of a line joins it to the next without anything between.
pub proof fn law_escaped_breaks_join_lines(
    text: Seq<char>,
    start: int,
    i: int,
    blanks: Seq<char>,
    had: Seq<char>,
)
    requires
        are_blanks(blanks),
        leaf::holds(text, i, seq!['\\', '\n'] + blanks),
        i + 2 + blanks.len() < text.len(),
        !words::is_white(text[i + 2 + blanks.len()]),
    ensures
        quoted::double_quoted(text, start, i, had) == quoted::double_quoted(
            text,
            start,
            i + 2 + blanks.len(),
            had,
        ),
{
    leaf::lemma_holds(text, i, seq!['\\', '\n'], blanks);
    assert(text[i + 0] == seq!['\\', '\n'][0]);
    assert(text[i + 1] == seq!['\\', '\n'][1]);
    lemma_blank_run(text, i + 2, blanks);
}

// ---------------------------------------------------------------------------
// Plain scalars
// ---------------------------------------------------------------------------

/// A line that continues a plain scalar outside flow collections.
pub open spec fn is_more(s: Seq<char>) -> bool {
    &&& s.len() > 0
    &&& words::is_line(s)
    &&& forall|i: int|
        0 <= i < s.len() ==> #[trigger] s[i] != ',' && s[i] != '[' && s[i] != ']' && s[i] != '{'
            && s[i] != '}'
    &&& forall|i: int|
        0 <= i < s.len() && #[trigger] s[i] == ':' ==> i + 1 < s.len() && !words::is_white(s[i + 1])
    &&& forall|i: int| 0 <= i < s.len() - 1 && #[trigger] s[i] == ' ' ==> s[i + 1] != '#'
    &&& !words::is_white(s[0])
    &&& !words::is_white(s[s.len() - 1])
    &&& s[0] != '#'
    &&& s[0] == '-' || s[0] == '?' ==> s.len() > 1 && !words::is_white(s[1])
    &&& !words::is_marker(s)
}

/// The lines of a plain scalar. Outside flow collections each but the first is deeper than
/// `indent`.
pub open spec fn are_plain_lines(
    lines: Seq<Seq<char>>,
    folds: Seq<Fold>,
    flow: bool,
    indent: int,
) -> bool {
    &&& lines.len() == folds.len() + 1
    &&& forall|k: int| 0 <= k < lines.len() ==> is_more(#[trigger] lines[k])
    &&& forall|k: int|
        0 <= k < folds.len() ==> is_fold(#[trigger] folds[k]) && (flow || folds[k].after.len()
            > indent)
}

/// What ends a plain scalar.
pub open spec fn ends_plain(text: Seq<char>, e: int, flow: bool, indent: int) -> bool {
    if flow {
        flow::ends_flow_word(text, e)
    } else {
        words::ends_word(text, e, indent)
    }
}

pub open spec fn plain_text(lines: Seq<Seq<char>>, folds: Seq<Fold>, k: int) -> Seq<char>
    decreases folds.len() - k,
{
    if 0 <= k < folds.len() {
        lines[k] + (fold_text(folds[k]) + plain_text(lines, folds, k + 1))
    } else {
        lines[k]
    }
}

pub open spec fn plain_value(lines: Seq<Seq<char>>, folds: Seq<Fold>, k: int) -> Seq<char>
    decreases folds.len() - k,
{
    if 0 <= k < folds.len() {
        lines[k] + fold_value(folds[k]) + plain_value(lines, folds, k + 1)
    } else {
        lines[k]
    }
}

/// A plain scalar over several lines is its lines put together, as a quoted one is.
pub proof fn law_plain_lines_are_folded(
    text: Seq<char>,
    i: int,
    lines: Seq<Seq<char>>,
    folds: Seq<Fold>,
    k: int,
    flow: bool,
    indent: int,
)
    requires
        are_plain_lines(lines, folds, flow, indent),
        0 <= k < lines.len(),
        text.len() <= usize::MAX,
        leaf::holds(text, i, plain_text(lines, folds, k)),
        ends_plain(text, i + plain_text(lines, folds, k).len(), flow, indent),
    ensures
        plain::plain_scalar(text, i, flow, indent) == (PlainScalar {
            value: plain_value(lines, folds, k),
            end: i + plain_text(lines, folds, k).len(),
            content_end: i + plain_text(lines, folds, k).len(),
        }),
    decreases lines.len() - k,
{
    let s = lines[k];
    assert(is_more(s));
    if k == folds.len() {
        lemma_last_line(text, i, s, flow, indent);
    } else {
        let f = folds[k];
        assert(is_fold(f));
        let rest = plain_text(lines, folds, k + 1);
        leaf::lemma_holds(text, i, s, fold_text(f) + rest);
        let p = i + s.len();
        leaf::lemma_holds(text, p, fold_text(f), rest);
        let q = p + fold_text(f).len();
        let next = lines[k + 1];
        assert(is_more(next));
        lemma_plain_head(lines, folds, k + 1);
        assert(leaf::holds(text, q, next)) by {
            assert forall|j: int| 0 <= j < next.len() implies text[q + j] == #[trigger] next[j] by {
                assert(text[q + j] == rest[j]);
            }
        }
        assert(text[q + 0] == next[0]);
        assert(next[0] != '\n');
        lemma_fold(text, p, f);
        lemma_broken_line(text, i, s, f.before);
        law_plain_lines_are_folded(text, q, lines, folds, k + 1, flow, indent);
        lemma_after_line(text, q, lines, folds, k + 1, flow, indent);
        lemma_continues(text, q, next, flow, indent);
        reader::lemma_counts(text, q);
    }
}

/// What stands behind line `k`.
proof fn lemma_after_line(
    text: Seq<char>,
    q: int,
    lines: Seq<Seq<char>>,
    folds: Seq<Fold>,
    k: int,
    flow: bool,
    indent: int,
)
    requires
        are_plain_lines(lines, folds, flow, indent),
        0 <= k < lines.len(),
        leaf::holds(text, q, plain_text(lines, folds, k)),
        ends_plain(text, q + plain_text(lines, folds, k).len(), flow, indent),
    ensures
        lines[k].len() < text.len() - q ==> {
            let c = text[q + lines[k].len()];
            words::is_white(c) || c == '\n' || c == ':' || flow && c != '-' && c != '.'
        },
{
    if k < folds.len() {
        let f = folds[k];
        assert(is_fold(f));
        lemma_fold_first(f);
        let m = lines[k].len() as int;
        let t = plain_text(lines, folds, k);
        assert(t[m] == fold_text(f)[0]);
        assert(text[q + m] == t[m]);
    }
}

/// The lines from line `k` on begin with line `k`.
proof fn lemma_plain_head(lines: Seq<Seq<char>>, folds: Seq<Fold>, k: int)
    requires
        0 <= k < lines.len(),
        lines.len() == folds.len() + 1,
    ensures
        plain_text(lines, folds, k).len() >= lines[k].len(),
        forall|j: int|
            0 <= j < lines[k].len() ==> #[trigger] plain_text(lines, folds, k)[j] == lines[k][j],
{
}

proof fn lemma_more_inside(text: Seq<char>, i: int, s: Seq<char>, k: int)
    requires
        leaf::holds(text, i, s),
        is_more(s),
        0 <= k < s.len(),
        k + 1 == s.len() ==> reader::char_at(text, i + s.len()) != Some('#') || s[k] != ' ',
    ensures
        !plain::plain_stop(text, i + k),
{
    assert(text[i + k] == s[k]);
    assert(s[k] != ',');
    if k + 1 < s.len() {
        assert(text[i + (k + 1)] == s[k + 1]);
        assert(s[k + 1] != ',' && s[k + 1] != '\n');
    }
}

/// A line of a plain scalar that a line break ends.
proof fn lemma_broken_line(text: Seq<char>, i: int, s: Seq<char>, blanks: Seq<char>)
    requires
        leaf::holds(text, i, s),
        is_more(s),
        are_blanks(blanks),
        leaf::holds(text, i + s.len(), blanks),
        i + s.len() + blanks.len() < text.len(),
        text[i + s.len() + blanks.len()] == '\n',
    ensures
        plain::plain_line_end(text, i) == i + s.len() + blanks.len(),
        text::trim_blanks(text.subrange(i, i + s.len() + blanks.len())) == s,
{
    let e = i + s.len();
    let q = e + blanks.len();
    assert forall|j: int| i <= j < q implies !plain::plain_stop(text, j) by {
        if j < e {
            lemma_more_inside(text, i, s, j - i);
            assert(i + (j - i) == j);
        } else {
            assert(text[e + (j - e)] == blanks[j - e]);
            assert(words::is_white(blanks[j - e]));
            if j + 1 < q {
                assert(text[e + (j + 1 - e)] == blanks[j + 1 - e]);
                assert(words::is_white(blanks[j + 1 - e]));
            }
        }
    }
    plain::lemma_plain_line_is(text, i, q);
    assert(text.subrange(i, q) == s + blanks) by {
        assert forall|j: int| 0 <= j < q - i implies text.subrange(i, q)[j] == (s + blanks)[j] by {
            if j < s.len() {
                assert(text[i + j] == s[j]);
            } else {
                assert(text[e + (j - s.len())] == blanks[j - s.len()]);
            }
        }
    }
    lemma_trim(s, blanks);
}

/// The last line of a plain scalar.
proof fn lemma_last_line(text: Seq<char>, i: int, s: Seq<char>, flow: bool, indent: int)
    requires
        leaf::holds(text, i, s),
        is_more(s),
        ends_plain(text, i + s.len(), flow, indent),
    ensures
        plain::plain_scalar(text, i, flow, indent) == (PlainScalar {
            value: s,
            end: i + s.len(),
            content_end: i + s.len(),
        }),
{
    let e = i + s.len();
    assert forall|j: int| i <= j < e implies !plain::plain_stop(text, j) by {
        lemma_more_inside(text, i, s, j - i);
        assert(i + (j - i) == j);
    }
    assert(plain::plain_stop(text, e));
    plain::lemma_plain_line_is(text, i, e);
    assert(text.subrange(i, e) == s) by {
        assert forall|k: int| 0 <= k < s.len() implies text.subrange(i, e)[k] == s[k] by {
            assert(text[i + k] == s[k]);
        }
    }
    assert(s[s.len() - 1] != ',');
    assert(text::trim_blanks(s) == s);
    if lex::break_at(text, e) {
        let p = lex::blank_lines(text, e + 1).0;
        assert(lex::after_break(text, e) == e + 1);
        lex::lemma_blank_lines(text, e + 1);
        assert(!plain::continues_plain(text, p, flow, indent));
    }
}

/// A line that continues a plain scalar.
proof fn lemma_continues(text: Seq<char>, q: int, s: Seq<char>, flow: bool, indent: int)
    requires
        leaf::holds(text, q, s),
        is_more(s),
        text.len() <= usize::MAX,
        flow || reader::column_at(text, q) > indent + 1,
        reader::column_at(text, q) <= q + 1,
        s.len() < text.len() - q ==> {
            let c = text[q + s.len()];
            words::is_white(c) || c == '\n' || c == ':' || flow && c != '-' && c != '.'
        },
    ensures
        plain::continues_plain(text, q, flow, indent),
        !plain::plain_stop(text, q),
{
    assert(text[q + 0] == s[0]);
    assert(s[0] != ',');
    if s.len() > 1 {
        assert(text[q + 1] == s[1]);
        assert(s[1] != ',' && s[1] != '\n');
    }
    if s.len() > 2 {
        assert(text[q + 2] == s[2]);
    }
    if s.len() > 3 {
        assert(text[q + 3] == s[3]);
        assert(s[3] != '\n');
    }
    lemma_more_inside(text, q, s, 0);
}

} // verus!
