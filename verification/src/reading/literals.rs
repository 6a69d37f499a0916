//! Block scalars: the lines of a literal or folded scalar, and the string they make.

use crate::meta::ScalarStyle;
use crate::reading::steps;
use crate::reading::words;
use crate::resolution;
use crate::roundtrip::leaf;
use crate::scanner::block_scalar;
use crate::scanner::block_scalar::{BlockLine, Chomping, Header};
use crate::scanner::lex;
use crate::scanner::lex::{Run, Stop};
use crate::scanner::model;
use crate::scanner::model::{Produced, ScanState};
use crate::scanner::token::Lexeme;
use crate::text;
use vstd::prelude::*;

verus! {

// ---------------------------------------------------------------------------
// Texts
// ---------------------------------------------------------------------------

/// A line with content: blank lines before it, by their spaces, how many columns it is deeper
/// than the scalar, and what it holds.
pub struct Para {
    pub gap: Seq<nat>,
    pub extra: nat,
    pub body: Seq<char>,
}

pub open spec fn is_para(p: Para) -> bool {
    p.body.len() > 0 && words::is_line(p.body) && p.body[0] != ' '
}

/// Lines of spaces from line `j` on.
pub open spec fn blank_text(gap: Seq<nat>, j: int) -> Seq<char>
    decreases gap.len() - j,
{
    if 0 <= j < gap.len() {
        steps::spaces(gap[j]) + (seq!['\n'] + blank_text(gap, j + 1))
    } else {
        Seq::empty()
    }
}

/// The line break behind line `k`. The last line may go without.
pub open spec fn line_end(ps: Seq<Para>, k: int, cut: bool) -> Seq<char> {
    if cut && k + 1 == ps.len() {
        Seq::empty()
    } else {
        seq!['\n']
    }
}

/// The lines of a scalar at column `depth` from line `k` on, and blank lines behind them.
pub open spec fn paras_text(ps: Seq<Para>, k: int, depth: nat, tail: Seq<nat>, cut: bool) -> Seq<
    char,
>
    decreases ps.len() - k,
{
    if 0 <= k < ps.len() {
        blank_text(ps[k].gap, 0) + (steps::spaces(depth + ps[k].extra) + (ps[k].body + (line_end(
            ps,
            k,
            cut,
        ) + paras_text(ps, k + 1, depth, tail, cut))))
    } else {
        blank_text(tail, 0)
    }
}

/// `n` line breaks.
pub open spec fn newlines(n: nat) -> Seq<char> {
    Seq::new(n, |i: int| '\n')
}

/// A line as the scalar holds it.
pub open spec fn line_value(p: Para) -> Seq<char> {
    steps::spaces(p.extra) + p.body
}

/// What a literal scalar holds up to its last line: its lines and every line break.
pub open spec fn literal_value(ps: Seq<Para>, k: int) -> Seq<char>
    decreases ps.len() - k,
{
    if 0 <= k < ps.len() {
        newlines(ps[k].gap.len()) + line_value(ps[k]) + if k + 1 < ps.len() {
            seq!['\n'] + literal_value(ps, k + 1)
        } else {
            Seq::empty()
        }
    } else {
        Seq::empty()
    }
}

/// What stands between two lines of a folded scalar. Next to a deeper line every line break
/// stays. Elsewhere a line break alone is a space, and of several one goes.
pub open spec fn joint(a: Para, b: Para) -> Seq<char> {
    if a.extra > 0 || b.extra > 0 {
        newlines(b.gap.len() + 1)
    } else if b.gap.len() == 0 {
        seq![' ']
    } else {
        newlines(b.gap.len())
    }
}

/// What a folded scalar holds from line `k` up to its last line.
pub open spec fn folded_value(ps: Seq<Para>, k: int) -> Seq<char>
    decreases ps.len() - k,
{
    if 0 <= k < ps.len() {
        line_value(ps[k]) + if k + 1 < ps.len() {
            joint(ps[k], ps[k + 1]) + folded_value(ps, k + 1)
        } else {
            Seq::empty()
        }
    } else {
        Seq::empty()
    }
}

/// What a scalar holds up to its last line.
pub open spec fn content_value(ps: Seq<Para>, literal: bool) -> Seq<char> {
    if literal {
        literal_value(ps, 0)
    } else {
        newlines(ps[0].gap.len()) + folded_value(ps, 0)
    }
}

/// The string that a scalar is. Stripping leaves no line break at the end, clipping leaves
/// one, and keeping leaves them all.
pub open spec fn scalar_value(ps: Seq<Para>, tail: Seq<nat>, literal: bool, chomp: Chomping) -> Seq<
    char,
> {
    content_value(ps, literal) + match chomp {
        Chomping::Strip => Seq::empty(),
        Chomping::Clip => newlines(1),
        Chomping::Keep => newlines(tail.len() + 1),
    }
}

/// The first line of a scalar behind its `|` or `>`.
pub struct Head {
    pub chomp: Chomping,
    pub digit: Option<char>,
    pub digit_first: bool,
    pub note: Option<Seq<char>>,
}

pub open spec fn is_head(h: Head) -> bool {
    &&& h.digit matches Some(c) ==> '1' <= c && c <= '9'
    &&& steps::is_note(h.note)
}

pub open spec fn chomp_text(chomp: Chomping) -> Seq<char> {
    match chomp {
        Chomping::Strip => seq!['-'],
        Chomping::Keep => seq!['+'],
        Chomping::Clip => Seq::empty(),
    }
}

pub open spec fn digit_text(digit: Option<char>) -> Seq<char> {
    match digit {
        Some(c) => seq![c],
        None => Seq::empty(),
    }
}

pub open spec fn indicator_text(h: Head) -> Seq<char> {
    if h.digit_first {
        digit_text(h.digit) + chomp_text(h.chomp)
    } else {
        chomp_text(h.chomp) + digit_text(h.digit)
    }
}

pub open spec fn note_text(note: Option<Seq<char>>) -> Seq<char> {
    match note {
        Some(c) => seq![' ', '#'] + c,
        None => Seq::empty(),
    }
}

pub open spec fn head_text(h: Head) -> Seq<char> {
    indicator_text(h) + (note_text(h.note) + seq!['\n'])
}

/// The column of a scalar under a collection at column `parent`: the one that the indicator
/// asks for, or, without one, that of the first line.
pub open spec fn is_depth(h: Head, parent: int, depth: nat, first: Para) -> bool {
    match h.digit {
        Some(c) => depth == if parent < 0 {
            resolution::symbol(c)
        } else {
            parent + 1 + resolution::symbol(c)
        },
        None => depth > parent && first.extra == 0,
    }
}

/// The scalar ends with the text, or before a line that is less deep.
pub open spec fn ends_scalar(text: Seq<char>, e: int, depth: nat, m: nat) -> bool {
    ||| e == text.len()
    ||| {
        &&& leaf::holds(text, e, steps::spaces(m))
        &&& m < depth
        &&& e + m < text.len()
        &&& text[e + m] != ' ' && text[e + m] != '\n' && text[e + m] != '\r'
    }
}

// ---------------------------------------------------------------------------
// Lines
// ---------------------------------------------------------------------------

spec fn blank() -> BlockLine {
    BlockLine { text: Seq::empty(), more: false }
}

spec fn blanks(n: nat) -> Seq<BlockLine> {
    Seq::new(n, |i: int| blank())
}

spec fn para_line(p: Para) -> BlockLine {
    BlockLine { text: line_value(p), more: p.extra > 0 }
}

spec fn lines_of(ps: Seq<Para>, k: int, tail: nat) -> Seq<BlockLine>
    decreases ps.len() - k,
{
    if 0 <= k < ps.len() {
        blanks(ps[k].gap.len()) + (seq![para_line(ps[k])] + lines_of(ps, k + 1, tail))
    } else {
        blanks(tail)
    }
}

proof fn lemma_spaces_run(text: Seq<char>, i: int, n: nat)
    requires
        leaf::holds(text, i, steps::spaces(n)),
        i + n == text.len() || text[i + n] != ' ',
    ensures
        lex::run_end(Run::Spaces, text, i) == i + n,
{
    assert forall|j: int| i <= j < i + n implies lex::in_run(Run::Spaces, text, j) by {
        assert(text[i + (j - i)] == steps::spaces(n)[j - i]);
    }
    lex::lemma_run_is(Run::Spaces, text, i, i + n);
}

/// Blank lines are empty lines of the scalar.
proof fn lemma_blanks(
    text: Seq<char>,
    i: int,
    parent: int,
    indent: Option<int>,
    gap: Seq<nat>,
    j: int,
)
    requires
        0 <= j <= gap.len(),
        leaf::holds(text, i, blank_text(gap, j)),
    ensures
        ({
            let rest = block_scalar::block_lines(
                text,
                i + blank_text(gap, j).len(),
                parent,
                indent,
            );
            block_scalar::block_lines(text, i, parent, indent) == (
                blanks((gap.len() - j) as nat) + rest.0,
                rest.1,
            )
        }),
    decreases gap.len() - j,
{
    let rest = block_scalar::block_lines(text, i + blank_text(gap, j).len(), parent, indent);
    if j < gap.len() {
        let n = gap[j];
        let tail = blank_text(gap, j + 1);
        leaf::lemma_holds(text, i, steps::spaces(n), seq!['\n'] + tail);
        leaf::lemma_holds(text, i + n, seq!['\n'], tail);
        let b = i + n;
        assert(text[b + 0] == seq!['\n'][0]);
        lemma_spaces_run(text, i, n);
        assert(lex::after_break(text, b) == b + 1);
        lemma_blanks(text, b + 1, parent, indent, gap, j + 1);
        let m = (gap.len() - j) as nat;
        assert(seq![blank()] + (blanks((m - 1) as nat) + rest.0) == blanks(m) + rest.0);
    } else {
        assert(blanks(0) + rest.0 == rest.0);
    }
}

/// A line with content.
proof fn lemma_para(
    text: Seq<char>,
    i: int,
    parent: int,
    indent: Option<int>,
    p: Para,
    depth: nat,
)
    requires
        is_para(p),
        leaf::holds(text, i, steps::spaces(depth + p.extra) + p.body),
        indent == Some(depth as int) || indent is None && p.extra == 0 && depth > parent,
        ({
            let e = i + depth + p.extra + p.body.len();
            e == text.len() || text[e] == '\n'
        }),
    ensures
        ({
            let e = i + depth + p.extra + p.body.len();
            if e == text.len() {
                block_scalar::block_lines(text, i, parent, indent) == (seq![para_line(p)], e)
            } else {
                let rest = block_scalar::block_lines(text, e + 1, parent, Some(depth as int));
                block_scalar::block_lines(text, i, parent, indent) == (
                    seq![para_line(p)] + rest.0,
                    rest.1,
                )
            }
        }),
{
    let n = depth + p.extra;
    let b = i + n;
    let e = b + p.body.len();
    leaf::lemma_holds(text, i, steps::spaces(n), p.body);
    assert(text[b + 0] == p.body[0]);
    lemma_spaces_run(text, i, n);
    let from = i + depth;
    assert forall|j: int| from <= j < e implies lex::in_run(Run::Line, text, j) by {
        if j < b {
            assert(text[i + (j - i)] == steps::spaces(n)[j - i]);
        } else {
            assert(text[b + (j - b)] == p.body[j - b]);
        }
    }
    lex::lemma_run_is(Run::Line, text, from, e);
    assert(text.subrange(from, e) == line_value(p)) by {
        assert forall|j: int| 0 <= j < e - from implies text.subrange(from, e)[j] == line_value(
            p,
        )[j] by {
            if j < p.extra {
                assert(text[i + (depth + j)] == steps::spaces(n)[depth + j]);
            } else {
                assert(text[b + (j - p.extra)] == p.body[j - p.extra]);
            }
        }
    }
    if e < text.len() {
        assert(lex::after_break(text, e) == e + 1);
    }
}

/// The lines of a scalar are found.
proof fn lemma_lines(
    text: Seq<char>,
    i: int,
    parent: int,
    indent: Option<int>,
    ps: Seq<Para>,
    k: int,
    depth: nat,
    tail: Seq<nat>,
    cut: bool,
    m: nat,
)
    requires
        0 <= k <= ps.len(),
        forall|j: int| 0 <= j < ps.len() ==> is_para(#[trigger] ps[j]),
        indent == Some(depth as int) || indent is None && k == 0 && ps.len() > 0 && ps[0].extra == 0
            && depth > parent,
        leaf::holds(text, i, paras_text(ps, k, depth, tail, cut)),
        ends_scalar(text, i + paras_text(ps, k, depth, tail, cut).len(), depth, m),
        cut ==> tail.len() == 0 && i + paras_text(ps, k, depth, tail, cut).len() == text.len(),
    ensures
        block_scalar::block_lines(text, i, parent, indent) == (
            lines_of(ps, k, tail.len()),
            i + paras_text(ps, k, depth, tail, cut).len(),
        ),
    decreases ps.len() - k,
{
    if k == ps.len() {
        let e = i + blank_text(tail, 0).len();
        lemma_blanks(text, i, parent, indent, tail, 0);
        if e < text.len() {
            lemma_spaces_run(text, e, m);
        }
        assert(block_scalar::block_lines(text, e, parent, indent) == (Seq::<BlockLine>::empty(), e));
        assert(blanks(tail.len()) + Seq::<BlockLine>::empty() == blanks(tail.len()));
    } else {
        let p = ps[k];
        assert(is_para(p));
        let gap = blank_text(p.gap, 0);
        let line = steps::spaces(depth + p.extra) + p.body;
        let end = line_end(ps, k, cut);
        let rest = paras_text(ps, k + 1, depth, tail, cut);
        assert(paras_text(ps, k, depth, tail, cut) == gap + (line + (end + rest)));
        leaf::lemma_holds(text, i, gap, line + (end + rest));
        let s = i + gap.len();
        leaf::lemma_holds(text, s, line, end + rest);
        let e = s + line.len();
        leaf::lemma_holds(text, e, end, rest);
        lemma_blanks(text, i, parent, indent, p.gap, 0);
        let only = seq![para_line(p)];
        if end.len() == 0 {
            assert(rest == blank_text(tail, 0));
            assert(rest.len() == 0);
            lemma_para(text, s, parent, indent, p, depth);
            assert(lines_of(ps, k + 1, 0) == Seq::<BlockLine>::empty());
            assert(only + lines_of(ps, k + 1, 0) == only);
        } else {
            assert(text[e + 0] == end[0]);
            lemma_para(text, s, parent, indent, p, depth);
            lemma_lines(text, e + 1, parent, Some(depth as int), ps, k + 1, depth, tail, cut, m);
        }
    }
}

// ---------------------------------------------------------------------------
// Values
// ---------------------------------------------------------------------------

proof fn lemma_literal_blanks(n: nat, rest: Seq<BlockLine>)
    ensures
        block_scalar::literal_text(blanks(n) + rest) == newlines(n) + block_scalar::literal_text(
            rest,
        ),
    decreases n,
{
    if n == 0 {
        assert(blanks(0) + rest == rest);
        assert(newlines(0) + block_scalar::literal_text(rest) == block_scalar::literal_text(rest));
    } else {
        let all = blanks(n) + rest;
        assert(all.drop_first() == blanks((n - 1) as nat) + rest);
        lemma_literal_blanks((n - 1) as nat, rest);
        let more = block_scalar::literal_text(rest);
        assert(Seq::<char>::empty() + seq!['\n'] + (newlines((n - 1) as nat) + more) == newlines(n)
            + more);
    }
}

/// The lines of a literal scalar.
proof fn lemma_literal(ps: Seq<Para>, k: int, tail: nat)
    requires
        0 <= k <= ps.len(),
    ensures
        block_scalar::literal_text(lines_of(ps, k, tail)) == if k < ps.len() {
            literal_value(ps, k) + newlines(tail + 1)
        } else {
            newlines(tail)
        },
    decreases ps.len() - k,
{
    if k == ps.len() {
        lemma_literal_blanks(tail, Seq::empty());
        assert(blanks(tail) + Seq::<BlockLine>::empty() == blanks(tail));
        assert(newlines(tail) + Seq::<char>::empty() == newlines(tail));
    } else {
        let p = ps[k];
        let rest = lines_of(ps, k + 1, tail);
        let here = seq![para_line(p)] + rest;
        lemma_literal_blanks(p.gap.len(), here);
        assert(here.drop_first() == rest);
        lemma_literal(ps, k + 1, tail);
        let more = block_scalar::literal_text(rest);
        let g = newlines(p.gap.len());
        let v = line_value(p);
        if k + 1 < ps.len() {
            let w = literal_value(ps, k + 1);
            assert(g + (v + seq!['\n'] + (w + newlines(tail + 1))) == g + v + (seq!['\n'] + w)
                + newlines(tail + 1));
        } else {
            assert(literal_value(ps, k) == g + v);
            assert(g + (v + seq!['\n'] + newlines(tail)) == g + v + newlines(tail + 1));
        }
    }
}

proof fn lemma_folded_blanks(n: nat, rest: Seq<BlockLine>, before: Option<bool>, m: nat)
    ensures
        block_scalar::folded_text(blanks(n) + rest, before, m) == block_scalar::folded_text(
            rest,
            before,
            m + n,
        ),
    decreases n,
{
    if n == 0 {
        assert(blanks(0) + rest == rest);
    } else {
        let all = blanks(n) + rest;
        assert(all.drop_first() == blanks((n - 1) as nat) + rest);
        lemma_folded_blanks((n - 1) as nat, rest, before, m + 1);
    }
}

/// What stands before line `k` of a folded scalar.
spec fn lead(ps: Seq<Para>, k: int) -> Seq<char> {
    if k == 0 {
        newlines(ps[0].gap.len())
    } else {
        joint(ps[k - 1], ps[k])
    }
}

/// The lines of a folded scalar.
proof fn lemma_folded(ps: Seq<Para>, k: int, tail: nat)
    requires
        0 <= k <= ps.len(),
        ps.len() > 0,
        forall|j: int| 0 <= j < ps.len() ==> is_para(#[trigger] ps[j]),
    ensures
        ({
            let before = if k == 0 {
                None
            } else {
                Some(ps[k - 1].extra > 0)
            };
            block_scalar::folded_text(lines_of(ps, k, tail), before, 0) == if k < ps.len() {
                lead(ps, k) + folded_value(ps, k) + newlines(tail + 1)
            } else {
                newlines(tail + 1)
            }
        }),
    decreases ps.len() - k,
{
    let before = if k == 0 {
        None
    } else {
        Some(ps[k - 1].extra > 0)
    };
    if k == ps.len() {
        lemma_folded_blanks(tail, Seq::empty(), before, 0);
        assert(blanks(tail) + Seq::<BlockLine>::empty() == blanks(tail));
        assert(text::repeated('\n', tail + 1) =~= newlines(tail + 1));
    } else {
        let p = ps[k];
        assert(is_para(p));
        let n = p.gap.len();
        let rest = lines_of(ps, k + 1, tail);
        let here = seq![para_line(p)] + rest;
        lemma_folded_blanks(n, here, before, 0);
        assert(here.drop_first() == rest);
        assert(here[0] == para_line(p));
        assert(line_value(p).len() > 0);
        lemma_folded(ps, k + 1, tail);
        let joined = block_scalar::fold_between(before, p.extra > 0, n);
        assert(joined =~= lead(ps, k));
        let v = line_value(p);
        if k + 1 < ps.len() {
            let j = joint(p, ps[k + 1]);
            let w = folded_value(ps, k + 1);
            assert(joined + v + (j + w + newlines(tail + 1)) == joined + (v + (j + w)) + newlines(
                tail + 1,
            ));
        } else {
            assert(folded_value(ps, k) == v);
        }
    }
}

/// Line breaks at the end are found.
proof fn lemma_trim(s: Seq<char>, n: nat)
    requires
        s.len() > 0,
        s.last() != '\n',
    ensures
        text::trim_newlines(s + newlines(n)) == s,
    decreases n,
{
    if n == 0 {
        assert(s + newlines(0) == s);
    } else {
        assert((s + newlines(n)).drop_last() == s + newlines((n - 1) as nat));
        lemma_trim(s, (n - 1) as nat);
    }
}

/// The content ends with the last line.
proof fn lemma_content_end(ps: Seq<Para>, k: int)
    requires
        0 <= k < ps.len(),
        forall|j: int| 0 <= j < ps.len() ==> is_para(#[trigger] ps[j]),
    ensures
        literal_value(ps, k).len() > 0,
        literal_value(ps, k).last() != '\n',
        folded_value(ps, k).len() > 0,
        folded_value(ps, k).last() != '\n',
    decreases ps.len() - k,
{
    let p = ps[k];
    assert(is_para(p));
    if k + 1 < ps.len() {
        lemma_content_end(ps, k + 1);
        assert(literal_value(ps, k).last() == literal_value(ps, k + 1).last());
        assert(folded_value(ps, k).last() == folded_value(ps, k + 1).last());
    } else {
        let v = line_value(p);
        assert(p.body[p.body.len() - 1] != '\n');
        assert(v.last() == p.body.last());
        assert(literal_value(ps, k) == newlines(p.gap.len()) + v);
        assert(folded_value(ps, k) == v);
    }
}

/// The string that the lines make.
proof fn lemma_value(ps: Seq<Para>, tail: Seq<nat>, literal: bool, chomp: Chomping)
    requires
        ps.len() > 0,
        forall|j: int| 0 <= j < ps.len() ==> is_para(#[trigger] ps[j]),
    ensures
        block_scalar::block_text(lines_of(ps, 0, tail.len()), literal, chomp) == scalar_value(
            ps,
            tail,
            literal,
            chomp,
        ),
{
    lemma_literal(ps, 0, tail.len());
    lemma_folded(ps, 0, tail.len());
    lemma_content_end(ps, 0);
    let v = content_value(ps, literal);
    if !literal {
        assert(v.last() == folded_value(ps, 0).last());
    }
    lemma_trim(v, tail.len() + 1);
    assert(v.push('\n') == v + newlines(1));
    assert(v + Seq::<char>::empty() == v);
}

// ---------------------------------------------------------------------------
// The header
// ---------------------------------------------------------------------------

spec fn header_of(h: Head) -> Header {
    Header {
        chomp: h.chomp,
        indent: match h.digit {
            Some(c) => Some(resolution::symbol(c) as nat),
            None => None,
        },
    }
}

proof fn lemma_indicators(text: Seq<char>, i: int, h: Head)
    requires
        is_head(h),
        leaf::holds(text, i, indicator_text(h)),
        ({
            let e = i + indicator_text(h).len();
            e < text.len() && (text[e] == ' ' || text[e] == '\n')
        }),
    ensures
        block_scalar::indicators(text, i, Header { chomp: Chomping::Clip, indent: None }) == (
            header_of(h),
            i + indicator_text(h).len(),
        ),
{
    reveal_with_fuel(block_scalar::indicators, 3);
    let t = indicator_text(h);
    if t.len() > 0 {
        assert(text[i + 0] == t[0]);
    }
    if t.len() > 1 {
        assert(text[i + 1] == t[1]);
    }
}

proof fn lemma_head(text: Seq<char>, start: int, i: int, h: Head)
    requires
        is_head(h),
        leaf::holds(text, i, head_text(h)),
    ensures
        block_scalar::block_header(text, start, i) == Ok::<(Header, int), Stop>(
            (header_of(h), i + head_text(h).len()),
        ),
{
    let t = indicator_text(h);
    let note = note_text(h.note);
    leaf::lemma_holds(text, i, t, note + seq!['\n']);
    let e = i + t.len();
    leaf::lemma_holds(text, e, note, seq!['\n']);
    let b = e + note.len();
    assert(text[b + 0] == seq!['\n'][0]);
    assert(lex::after_break(text, b) == b + 1);
    match h.note {
        None => {
            lemma_indicators(text, i, h);
            lex::lemma_run_is(Run::Blanks, text, e, e);
        },
        Some(c) => {
            assert(text[e + 0] == note[0] && text[e + 1] == note[1]);
            lemma_indicators(text, i, h);
            lex::lemma_run_is(Run::Blanks, text, e, e + 1);
            assert forall|j: int| e + 1 <= j < b implies lex::in_run(Run::Line, text, j) by {
                assert(text[e + (j - e)] == note[j - e]);
                if j > e + 1 {
                    assert(note[j - e] == c[j - e - 2]);
                }
            }
            lex::lemma_run_is(Run::Line, text, e + 1, b);
        },
    }
}

/// A block scalar is its lines without their indentation, put together as its style says and
/// ended as its chomping says.
pub proof fn law_block_scalars_are_read(
    text: Seq<char>,
    start: int,
    i: int,
    h: Head,
    ps: Seq<Para>,
    depth: nat,
    tail: Seq<nat>,
    cut: bool,
    literal: bool,
    parent: int,
    m: nat,
)
    requires
        is_head(h),
        ps.len() > 0,
        forall|j: int| 0 <= j < ps.len() ==> is_para(#[trigger] ps[j]),
        is_depth(h, parent, depth, ps[0]),
        leaf::holds(text, i, head_text(h) + paras_text(ps, 0, depth, tail, cut)),
        ({
            let e = i + head_text(h).len() + paras_text(ps, 0, depth, tail, cut).len();
            &&& ends_scalar(text, e, depth, m)
            &&& cut ==> tail.len() == 0 && e == text.len()
        }),
    ensures
        block_scalar::block_scalar(text, start, i, literal, parent) == Ok::<
            (Seq<char>, int),
            Stop,
        >(
            (
                scalar_value(ps, tail, literal, h.chomp),
                i + head_text(h).len() + paras_text(ps, 0, depth, tail, cut).len(),
            ),
        ),
{
    leaf::lemma_holds(text, i, head_text(h), paras_text(ps, 0, depth, tail, cut));
    lemma_head(text, start, i, h);
    let at = i + head_text(h).len();
    let indent = match h.digit {
        Some(_) => Some(depth as int),
        None => None,
    };
    lemma_lines(text, at, parent, indent, ps, 0, depth, tail, cut, m);
    lemma_value(ps, tail, literal, h.chomp);
}

/// Behind the indicators of a block scalar nothing may stand on the line but blanks and a
/// comment.
pub proof fn law_bad_headers_are_refused(
    text: Seq<char>,
    start: int,
    i: int,
    h: Head,
    n: nat,
    literal: bool,
    parent: int,
)
    requires
        is_head(h),
        leaf::holds(text, i, indicator_text(h) + steps::spaces(n)),
        ({
            let e = i + indicator_text(h).len() + n;
            &&& e < text.len()
            &&& text[e] != ' ' && text[e] != '\t' && text[e] != '\n' && text[e] != '\r'
            &&& text[e] == '#' ==> n == 0
            &&& n == 0 ==> text[e] != '-' && text[e] != '+' && resolution::symbol(text[e]) >= 10
        }),
    ensures
        block_scalar::block_scalar(text, start, i, literal, parent) is Err,
{
    let t = indicator_text(h);
    leaf::lemma_holds(text, i, t, steps::spaces(n));
    let e = i + t.len();
    if n > 0 {
        assert(text[e + 0] == steps::spaces(n)[0]);
    }
    reveal_with_fuel(block_scalar::indicators, 3);
    if t.len() > 0 {
        assert(text[i + 0] == t[0]);
    }
    if t.len() > 1 {
        assert(text[i + 1] == t[1]);
    }
    assert forall|j: int| e <= j < e + n implies lex::in_run(Run::Blanks, text, j) by {
        assert(text[e + (j - e)] == steps::spaces(n)[j - e]);
    }
    lex::lemma_run_is(Run::Blanks, text, e, e + n);
}

/// A block scalar without content holds its blank lines where they are kept, and nothing
/// otherwise.
pub proof fn law_empty_block_scalars_are_read(
    text: Seq<char>,
    start: int,
    i: int,
    h: Head,
    tail: Seq<nat>,
    literal: bool,
    parent: int,
)
    requires
        is_head(h),
        leaf::holds(text, i, head_text(h) + blank_text(tail, 0)),
        text.len() == i + head_text(h).len() + blank_text(tail, 0).len(),
    ensures
        block_scalar::block_scalar(text, start, i, literal, parent) == Ok::<
            (Seq<char>, int),
            Stop,
        >(
            (
                if h.chomp == Chomping::Keep {
                    newlines(tail.len())
                } else {
                    Seq::empty()
                },
                text.len() as int,
            ),
        ),
{
    leaf::lemma_holds(text, i, head_text(h), blank_text(tail, 0));
    lemma_head(text, start, i, h);
    let at = i + head_text(h).len();
    let indent = match h.digit {
        Some(c) => Some(block_scalar::indicated_indent(parent, resolution::symbol(c) as nat)),
        None => None,
    };
    lemma_blanks(text, at, parent, indent, tail, 0);
    let n = tail.len();
    lemma_spaces_run(text, text.len() as int, 0);
    assert(blanks(n) + Seq::<BlockLine>::empty() == blanks(n));
    lemma_literal_blanks(n, Seq::empty());
    lemma_folded_blanks(n, Seq::empty(), None, 0);
    assert(newlines(n) + Seq::<char>::empty() == newlines(n));
    assert(text::repeated('\n', n) =~= newlines(n));
    lemma_all_newlines(n);
}

proof fn lemma_all_newlines(n: nat)
    ensures
        text::trim_newlines(newlines(n)) == Seq::<char>::empty(),
    decreases n,
{
    if n == 0 {
        assert(newlines(0) == Seq::<char>::empty());
    } else {
        assert(newlines(n).drop_last() == newlines((n - 1) as nat));
        lemma_all_newlines((n - 1) as nat);
    }
}

/// Outside flow collections `|` begins a literal scalar and `>` a folded one, under the
/// collection that is open.
pub proof fn law_block_scalars_are_scanned(
    text: Seq<char>,
    st: ScanState,
    h: Head,
    ps: Seq<Para>,
    depth: nat,
    tail: Seq<nat>,
    cut: bool,
    m: nat,
)
    requires
        st.flow_depth == 0,
        0 <= st.pos < text.len(),
        text[st.pos] == '|' || text[st.pos] == '>',
        is_head(h),
        ps.len() > 0,
        forall|j: int| 0 <= j < ps.len() ==> is_para(#[trigger] ps[j]),
        is_depth(h, st.indent, depth, ps[0]),
        leaf::holds(text, st.pos + 1, head_text(h) + paras_text(ps, 0, depth, tail, cut)),
        ({
            let e = st.pos + 1 + head_text(h).len() + paras_text(ps, 0, depth, tail, cut).len();
            &&& ends_scalar(text, e, depth, m)
            &&& cut ==> tail.len() == 0 && e == text.len()
        }),
    ensures
        model::content(text, st) matches Ok(p) && {
            &&& p.tok.kind == Lexeme::Scalar {
                value: scalar_value(ps, tail, text[st.pos] == '|', h.chomp),
                style: if text[st.pos] == '|' {
                    ScalarStyle::Literal
                } else {
                    ScalarStyle::Folded
                },
            }
            &&& p.st.pos == st.pos + 1 + head_text(h).len() + paras_text(
                ps,
                0,
                depth,
                tail,
                cut,
            ).len()
        },
{
    law_block_scalars_are_read(
        text,
        st.pos,
        st.pos + 1,
        h,
        ps,
        depth,
        tail,
        cut,
        text[st.pos] == '|',
        st.indent,
        m,
    );
}

/// Behind a literal or folded scalar a key may begin at once, since the scalar takes its line
/// breaks with it. Behind any other scalar, a property or an alias no key may begin before
/// the next line.
pub proof fn law_keys_may_follow_block_scalars(text: Seq<char>, at: int, p: Produced)
    requires
        p.st.flow_depth == 0,
        !p.st.pending_directives,
    ensures
        p.tok.kind matches Lexeme::Scalar { style, .. } ==> (model::token_added(text, at, p)
            matches Ok(next) && (next.key_allowed <==> style == ScalarStyle::Literal || style
            == ScalarStyle::Folded) && next.doc_open && next.out == p.st.out.push(p.tok)),
        p.tok.kind is Anchor || p.tok.kind is Tag || p.tok.kind is Alias ==> (model::token_added(
            text,
            at,
            p,
        ) matches Ok(next) && !next.key_allowed && next.doc_open && next.out == p.st.out.push(
            p.tok,
        )),
{
}

} // verus!
