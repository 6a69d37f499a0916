//! Texts that are read alike: they differ in how lines end, or in what stands before
//! them.

use crate::scanner::block_scalar;
use crate::scanner::block_scalar::{Chomping, Header};
use crate::scanner::lex;
use crate::scanner::lex::{Run, Stop};
use crate::scanner::model;
use crate::scanner::model::Gap;
use crate::scanner::plain;
use crate::scanner::properties;
use crate::scanner::properties::Directive;
use crate::scanner::quoted;
use crate::scanner::reader;
use crate::text;
use vstd::prelude::*;

verus! {

/// Two texts, and which place of the second each place of the first is.
pub struct Twins {
    pub a: Seq<char>,
    pub b: Seq<char>,
    pub place: spec_fn(int) -> int,
    /// How many more lines stand before a place of the second.
    pub lines: int,
    /// Whether a `\n` of the first is a `\r\n` of the second.
    pub cr: bool,
}

/// The place of the second text that `i` is.
pub open spec fn to(t: Twins, i: int) -> int {
    (t.place)(i)
}

/// The character at `i` is the one at its place, and the next place follows.
pub open spec fn steps(t: Twins, i: int) -> bool {
    let p = to(t, i);
    &&& 0 <= p
    &&& t.cr ==> t.a[i] != '\r'
    &&& if t.cr && t.a[i] == '\n' {
        &&& p + 1 < t.b.len()
        &&& t.b[p] == '\r'
        &&& t.b[p + 1] == '\n'
        &&& to(t, i + 1) == p + 2
    } else {
        &&& p < t.b.len()
        &&& t.b[p] == t.a[i]
        &&& to(t, i + 1) == p + 1
    }
}

/// The place lies in the same column, and a fixed number of lines below.
pub open spec fn lies(t: Twins, i: int) -> bool {
    let here = reader::position_at(t.a, i);
    let there = reader::position_at(t.b, to(t, i));
    there.column == here.column && there.line == here.line + t.lines
}

/// The texts are read alike.
pub open spec fn are_alike(t: Twins) -> bool {
    &&& to(t, t.a.len() as int) == t.b.len()
    &&& forall|i: int| 0 <= i < t.a.len() ==> #[trigger] steps(t, i)
    &&& forall|i: int| 0 <= i <= t.a.len() ==> #[trigger] lies(t, i)
}

/// `i` is a place of the first text.
pub open spec fn in_first(t: Twins, i: int) -> bool {
    0 <= i <= t.a.len()
}

// ---------------------------------------------------------------------------
// Characters
// ---------------------------------------------------------------------------

/// The character here.
pub proof fn lemma_here(t: Twins, i: int)
    requires
        are_alike(t),
        in_first(t, i),
    ensures
        0 <= to(t, i) <= t.b.len(),
        i < t.a.len() <==> to(t, i) < t.b.len(),
        lies(t, i),
        lex::break_at(t.a, i) == lex::break_at(t.b, to(t, i)),
        i < t.a.len() ==> steps(t, i),
        i < t.a.len() ==> text::is_break(t.a[i]) == text::is_break(t.b[to(t, i)]),
        i < t.a.len() && !text::is_break(t.a[i]) ==> t.b[to(t, i)] == t.a[i] && to(t, i + 1) == to(
            t,
            i,
        ) + 1,
{
    assert(lies(t, i));
    if i < t.a.len() {
        assert(steps(t, i));
    }
}

/// What stands behind a character that is no line break.
pub proof fn lemma_behind(t: Twins, i: int)
    requires
        are_alike(t),
        0 <= i < t.a.len(),
        !text::is_break(t.a[i]),
    ensures
        to(t, i + 1) == to(t, i) + 1,
        lex::separator_at(t.a, i + 1) == lex::separator_at(t.b, to(t, i) + 1),
        lex::terminator_at(t.a, i + 1) == lex::terminator_at(t.b, to(t, i) + 1),
        reader::char_at(t.a, i + 1) == reader::char_at(t.b, to(t, i) + 1) || lex::break_at(
            t.a,
            i + 1,
        ) && lex::break_at(t.b, to(t, i) + 1),
{
    lemma_here(t, i);
    lemma_here(t, i + 1);
}

/// The indicators here.
pub proof fn lemma_signs(t: Twins, i: int)
    requires
        are_alike(t),
        in_first(t, i),
    ensures
        lex::value_indicator_at(t.a, i) == lex::value_indicator_at(t.b, to(t, i)),
        lex::marker_at(t.a, i, '-') == lex::marker_at(t.b, to(t, i), '-'),
        lex::marker_at(t.a, i, '.') == lex::marker_at(t.b, to(t, i), '.'),
        plain::plain_stop(t.a, i) == plain::plain_stop(t.b, to(t, i)),
        lex::any_marker_at(t.a, i) ==> i + 3 <= t.a.len() && to(t, i + 3) == to(t, i) + 3,
{
    lemma_here(t, i);
    if i < t.a.len() && !text::is_break(t.a[i]) {
        lemma_behind(t, i);
        lemma_here(t, i + 1);
        if i + 1 < t.a.len() && !text::is_break(t.a[i + 1]) {
            lemma_here(t, i + 2);
            if i + 2 < t.a.len() && !text::is_break(t.a[i + 2]) {
                lemma_here(t, i + 3);
            }
        }
    }
}

/// A run of characters is the same run.
pub proof fn lemma_run(t: Twins, run: Run, i: int)
    requires
        are_alike(t),
        in_first(t, i),
    ensures
        ({
            let e = lex::run_end(run, t.a, i);
            &&& i <= e <= t.a.len()
            &&& lex::run_end(run, t.b, to(t, i)) == to(t, e)
            &&& to(t, e) - to(t, i) == e - i
            &&& t.b.subrange(to(t, i), to(t, e)) == t.a.subrange(i, e)
            &&& forall|k: int| 0 <= k <= e - i ==> #[trigger] to(t, i + k) == to(t, i) + k
            &&& forall|k: int| 0 <= k < e - i ==> t.b[to(t, i) + k] == #[trigger] t.a[i + k]
        }),
    decreases t.a.len() - i,
{
    lemma_here(t, i);
    lemma_signs(t, i);
    assert(lex::in_run(run, t.a, i) == lex::in_run(run, t.b, to(t, i)));
    let e = lex::run_end(run, t.a, i);
    if lex::in_run(run, t.a, i) {
        lemma_run(t, run, i + 1);
        assert forall|k: int| 0 <= k <= e - i implies #[trigger] to(t, i + k) == to(t, i) + k by {
            if k > 0 {
                assert(to(t, (i + 1) + (k - 1)) == to(t, i + 1) + (k - 1));
            }
        }
        assert forall|k: int| 0 <= k < e - i implies t.b[to(t, i) + k] == #[trigger] t.a[i + k] by {
            if k > 0 {
                assert(t.b[to(t, i + 1) + (k - 1)] == t.a[(i + 1) + (k - 1)]);
            }
        }
    }
    lemma_here(t, e);
    assert(t.b.subrange(to(t, i), to(t, e)) =~= t.a.subrange(i, e)) by {
        assert forall|k: int| 0 <= k < e - i implies t.b.subrange(to(t, i), to(t, e))[k]
            == t.a.subrange(i, e)[k] by {
            assert(t.b[to(t, i) + k] == t.a[i + k]);
        }
    }
}

/// Past a line break.
pub proof fn lemma_break(t: Twins, i: int)
    requires
        are_alike(t),
        in_first(t, i),
    ensures
        lex::after_break(t.b, to(t, i)) == to(t, lex::after_break(t.a, i)),
        i <= lex::after_break(t.a, i) <= t.a.len(),
        lex::break_at(t.a, i) ==> i < lex::after_break(t.a, i),
{
    lemma_here(t, i);
    if i < t.a.len() {
        lemma_here(t, i + 1);
        if i + 1 < t.a.len() {
            lemma_here(t, i + 2);
        }
    }
}

/// Past blank lines.
pub proof fn lemma_blank_lines(t: Twins, i: int)
    requires
        are_alike(t),
        in_first(t, i),
    ensures
        lex::blank_lines(t.b, to(t, i)).0 == to(t, lex::blank_lines(t.a, i).0),
        lex::blank_lines(t.b, to(t, i)).1 == lex::blank_lines(t.a, i).1,
        i <= lex::blank_lines(t.a, i).0 <= t.a.len(),
    decreases t.a.len() - i,
{
    let e = lex::run_end(Run::Blanks, t.a, i);
    lemma_run(t, Run::Blanks, i);
    lemma_here(t, e);
    lemma_break(t, e);
    lex::lemma_run_end(Run::Blanks, t.b, to(t, i));
    if lex::break_at(t.a, e) {
        lemma_blank_lines(t, lex::after_break(t.a, e));
    }
}

// ---------------------------------------------------------------------------
// Scalars
// ---------------------------------------------------------------------------

/// The content of a plain scalar on one line.
proof fn lemma_plain_line(t: Twins, i: int)
    requires
        are_alike(t),
        in_first(t, i),
    ensures
        ({
            let e = plain::plain_line_end(t.a, i);
            &&& i <= e <= t.a.len()
            &&& plain::plain_line_end(t.b, to(t, i)) == to(t, e)
            &&& to(t, e) - to(t, i) == e - i
            &&& t.b.subrange(to(t, i), to(t, e)) == t.a.subrange(i, e)
            &&& forall|k: int| 0 <= k < e - i ==> t.b[to(t, i) + k] == #[trigger] t.a[i + k]
        }),
    decreases t.a.len() - i,
{
    lemma_here(t, i);
    lemma_signs(t, i);
    let e = plain::plain_line_end(t.a, i);
    if !plain::plain_stop(t.a, i) {
        lemma_plain_line(t, i + 1);
        assert forall|k: int| 0 <= k < e - i implies t.b[to(t, i) + k] == #[trigger] t.a[i + k] by {
            if k > 0 {
                assert(t.b[to(t, i + 1) + (k - 1)] == t.a[(i + 1) + (k - 1)]);
            }
        }
    }
    lemma_here(t, e);
    assert(t.b.subrange(to(t, i), to(t, e)) =~= t.a.subrange(i, e)) by {
        assert forall|k: int| 0 <= k < e - i implies t.b.subrange(to(t, i), to(t, e))[k]
            == t.a.subrange(i, e)[k] by {
            assert(t.b[to(t, i) + k] == t.a[i + k]);
        }
    }
}

proof fn lemma_continues(t: Twins, i: int, flow: bool, indent: int)
    requires
        are_alike(t),
        in_first(t, i),
    ensures
        plain::continues_plain(t.a, i, flow, indent) == plain::continues_plain(
            t.b,
            to(t, i),
            flow,
            indent,
        ),
{
    lemma_here(t, i);
    lemma_signs(t, i);
    if i < t.a.len() && !text::is_break(t.a[i]) {
        lemma_behind(t, i);
    }
}

/// A plain scalar.
pub proof fn lemma_plain(t: Twins, i: int, flow: bool, indent: int)
    requires
        are_alike(t),
        in_first(t, i),
    ensures
        ({
            let first = plain::plain_scalar(t.a, i, flow, indent);
            let second = plain::plain_scalar(t.b, to(t, i), flow, indent);
            &&& second.value == first.value
            &&& second.end == to(t, first.end)
            &&& i <= first.end <= t.a.len()
        }),
    decreases t.a.len() - i,
{
    let q = plain::plain_line_end(t.a, i);
    lemma_plain_line(t, i);
    lemma_here(t, q);
    lemma_break(t, q);
    if lex::break_at(t.a, q) {
        let from = lex::after_break(t.a, q);
        let next = lex::blank_lines(t.a, from).0;
        lemma_blank_lines(t, from);
        lemma_continues(t, next, flow, indent);
        lemma_signs(t, next);
        plain::lemma_plain_line_end(t.b, to(t, i));
        lex::lemma_blank_lines(t.b, to(t, from));
        lemma_plain(t, next, flow, indent);
    }
}

/// Both scans read the same text to the same place, or both fail.
pub open spec fn read_alike(
    t: Twins,
    first: Result<(Seq<char>, int), Stop>,
    second: Result<(Seq<char>, int), Stop>,
) -> bool {
    match (first, second) {
        (Ok((value, end)), Ok((other, at))) => {
            &&& value == other
            &&& in_first(t, end)
            &&& at == to(t, end)
        },
        (Err(_), Err(_)) => true,
        _ => false,
    }
}

proof fn lemma_fold(t: Twins, start: int, begin: int, i: int, gathered: Seq<char>)
    requires
        are_alike(t),
        in_first(t, i),
        lex::break_at(t.a, i),
    ensures
        read_alike(
            t,
            quoted::quoted_fold(t.a, start, i, gathered),
            quoted::quoted_fold(t.b, begin, to(t, i), gathered),
        ),
        quoted::quoted_fold(t.a, start, i, gathered) matches Ok((_, at)) ==> i < at,
{
    let from = lex::after_break(t.a, i);
    lemma_break(t, i);
    lemma_blank_lines(t, from);
    let next = lex::blank_lines(t.a, from).0;
    lemma_here(t, next);
    lemma_signs(t, next);
}

proof fn lemma_hex_escape(t: Twins, start: int, begin: int, i: int, n: nat, code: nat)
    requires
        are_alike(t),
        in_first(t, i),
    ensures
        match (
            quoted::hex_escape(t.a, start, i, n, code),
            quoted::hex_escape(t.b, begin, to(t, i), n, code),
        ) {
            (Ok((c, e)), Ok((d, at))) => c == d && i <= e <= t.a.len() && at == to(t, e),
            (Err(_), Err(_)) => true,
            _ => false,
        },
    decreases n,
{
    lemma_here(t, i);
    if n > 0 && i < t.a.len() {
        assert(text::is_break(t.a[i]) ==> text::digit_value(t.a[i]) is None);
        assert(text::is_break(t.b[to(t, i)]) ==> text::digit_value(t.b[to(t, i)]) is None);
        if let Some(d) = text::digit_value(t.a[i]) {
            lemma_hex_escape(t, start, begin, i + 1, (n - 1) as nat, code * 16 + d);
        }
    }
}

proof fn lemma_escape(t: Twins, start: int, begin: int, i: int)
    requires
        are_alike(t),
        in_first(t, i),
        !lex::break_at(t.a, i),
    ensures
        match (quoted::escape(t.a, start, i), quoted::escape(t.b, begin, to(t, i))) {
            (Ok((c, e)), Ok((d, at))) => c == d && i < e <= t.a.len() && at == to(t, e),
            (Err(_), Err(_)) => true,
            _ => false,
        },
{
    lemma_here(t, i);
    if i < t.a.len() {
        if let Some(n) = quoted::hex_escape_width(t.a[i]) {
            lemma_hex_escape(t, start, begin, i + 1, n, 0);
        }
    }
}

pub proof fn lemma_single_quoted(t: Twins, start: int, begin: int, i: int, gathered: Seq<char>)
    requires
        are_alike(t),
        in_first(t, i),
    ensures
        read_alike(
            t,
            quoted::single_quoted(t.a, start, i, gathered),
            quoted::single_quoted(t.b, begin, to(t, i), gathered),
        ),
    decreases t.a.len() - i,
{
    lemma_here(t, i);
    if i < t.a.len() {
        if text::is_break(t.a[i]) {
            lemma_fold(t, start, begin, i, gathered);
            lex::lemma_blank_lines(t.b, lex::after_break(t.b, to(t, i)));
            if let Ok((folded, at)) = quoted::quoted_fold(t.a, start, i, gathered) {
                lemma_single_quoted(t, start, begin, at, folded);
            }
        } else {
            lemma_behind(t, i);
            if t.a[i] == '\'' {
                if reader::char_at(t.a, i + 1) == Some('\'') {
                    lemma_here(t, i + 1);
                    lemma_single_quoted(t, start, begin, i + 2, gathered.push('\''));
                }
            } else {
                lemma_single_quoted(t, start, begin, i + 1, gathered.push(t.a[i]));
            }
        }
    }
}

#[verifier::rlimit(30)]
#[verifier::spinoff_prover]
pub proof fn lemma_double_quoted(t: Twins, start: int, begin: int, i: int, gathered: Seq<char>)
    requires
        are_alike(t),
        in_first(t, i),
    ensures
        read_alike(
            t,
            quoted::double_quoted(t.a, start, i, gathered),
            quoted::double_quoted(t.b, begin, to(t, i), gathered),
        ),
    decreases t.a.len() - i,
{
    lemma_here(t, i);
    if i < t.a.len() {
        if text::is_break(t.a[i]) {
            lemma_fold(t, start, begin, i, gathered);
            lex::lemma_blank_lines(t.b, lex::after_break(t.b, to(t, i)));
            if let Ok((folded, at)) = quoted::quoted_fold(t.a, start, i, gathered) {
                lemma_double_quoted(t, start, begin, at, folded);
            }
        } else {
            lemma_here(t, i + 1);
            if t.a[i] == '\\' {
                if lex::break_at(t.a, i + 1) {
                    let from = lex::after_break(t.a, i + 1);
                    lemma_break(t, i + 1);
                    lemma_run(t, Run::Blanks, from);
                    lex::lemma_run_end(Run::Blanks, t.b, to(t, from));
                    lemma_double_quoted(
                        t,
                        start,
                        begin,
                        lex::run_end(Run::Blanks, t.a, from),
                        gathered,
                    );
                } else {
                    lemma_escape(t, start, begin, i + 1);
                    quoted::lemma_escape_end(t.b, begin, to(t, i) + 1);
                    if let Ok((c, at)) = quoted::escape(t.a, start, i + 1) {
                        lemma_double_quoted(t, start, begin, at, gathered.push(c));
                    }
                }
            } else if t.a[i] != '"' {
                lemma_double_quoted(t, start, begin, i + 1, gathered.push(t.a[i]));
            }
        }
    }
}

// ---------------------------------------------------------------------------
// Block scalars
// ---------------------------------------------------------------------------

proof fn lemma_indicators(t: Twins, i: int, header: Header)
    requires
        are_alike(t),
        in_first(t, i),
    ensures
        ({
            let first = block_scalar::indicators(t.a, i, header);
            let second = block_scalar::indicators(t.b, to(t, i), header);
            &&& second.0 == first.0
            &&& second.1 == to(t, first.1)
            &&& i <= first.1 <= t.a.len()
        }),
    decreases t.a.len() - i,
{
    lemma_here(t, i);
    if i < t.a.len() && !text::is_break(t.a[i]) {
        let c = t.a[i];
        if (c == '-' || c == '+') && header.chomp == Chomping::Clip {
            let chomp = if c == '-' {
                Chomping::Strip
            } else {
                Chomping::Keep
            };
            lemma_indicators(t, i + 1, Header { chomp, ..header });
        } else if '1' <= c <= '9' && header.indent is None {
            let indent = Some((c as int - '0' as int) as nat);
            lemma_indicators(t, i + 1, Header { indent, ..header });
        }
    }
}

proof fn lemma_block_header(t: Twins, start: int, begin: int, i: int)
    requires
        are_alike(t),
        in_first(t, i),
    ensures
        match (
            block_scalar::block_header(t.a, start, i),
            block_scalar::block_header(t.b, begin, to(t, i)),
        ) {
            (Ok((h, e)), Ok((g, at))) => h == g && i <= e <= t.a.len() && at == to(t, e),
            (Err(_), Err(_)) => true,
            _ => false,
        },
{
    let blank = Header { chomp: Chomping::Clip, indent: None };
    let said = block_scalar::indicators(t.a, i, blank).1;
    lemma_indicators(t, i, blank);
    lemma_run(t, Run::Blanks, said);
    let e = lex::run_end(Run::Blanks, t.a, said);
    lemma_here(t, e);
    lemma_break(t, e);
    lemma_run(t, Run::Line, e);
    lemma_break(t, lex::run_end(Run::Line, t.a, e));
}

#[verifier::rlimit(30)]
#[verifier::spinoff_prover]
proof fn lemma_block_lines(t: Twins, i: int, parent: int, indent: Option<int>)
    requires
        are_alike(t),
        in_first(t, i),
    ensures
        block_scalar::block_lines(t.b, to(t, i), parent, indent).0 == block_scalar::block_lines(
            t.a,
            i,
            parent,
            indent,
        ).0,
        block_scalar::block_lines(t.b, to(t, i), parent, indent).1 == to(
            t,
            block_scalar::block_lines(t.a, i, parent, indent).1,
        ),
        i <= block_scalar::block_lines(t.a, i, parent, indent).1 <= t.a.len(),
    decreases t.a.len() - i,
{
    let s = lex::run_end(Run::Spaces, t.a, i);
    lemma_here(t, i);
    lemma_run(t, Run::Spaces, i);
    lemma_here(t, s);
    lex::lemma_run_end(Run::Spaces, t.b, to(t, i));
    if s < t.a.len() {
        if text::is_break(t.a[s]) {
            lemma_break(t, s);
            lemma_block_lines(t, lex::after_break(t.a, s), parent, indent);
        } else {
            let depth = match indent {
                Some(n) => n,
                None => s - i,
            };
            if 0 <= depth <= s - i && !(indent is None && s - i <= parent) {
                let e = lex::run_end(Run::Line, t.a, i + depth);
                assert(to(t, i + depth) == to(t, i) + depth);
                lemma_run(t, Run::Line, i + depth);
                lemma_here(t, e);
                lex::lemma_run_end(Run::Line, t.b, to(t, i) + depth);
                if e < t.a.len() {
                    lex::lemma_run_end(Run::Line, t.a, i + depth);
                    lemma_break(t, e);
                    lemma_block_lines(t, lex::after_break(t.a, e), parent, Some(depth));
                }
            }
        }
    }
}

pub proof fn lemma_block_scalar(
    t: Twins,
    start: int,
    begin: int,
    i: int,
    literal: bool,
    parent: int,
)
    requires
        are_alike(t),
        in_first(t, i),
    ensures
        read_alike(
            t,
            block_scalar::block_scalar(t.a, start, i, literal, parent),
            block_scalar::block_scalar(t.b, begin, to(t, i), literal, parent),
        ),
{
    lemma_block_header(t, start, begin, i);
    if let Ok((header, at)) = block_scalar::block_header(t.a, start, i) {
        let indent = match header.indent {
            Some(n) => Some(block_scalar::indicated_indent(parent, n)),
            None => None,
        };
        lemma_block_lines(t, at, parent, indent);
    }
}

// ---------------------------------------------------------------------------
// Properties and directives
// ---------------------------------------------------------------------------

pub proof fn lemma_node_name(t: Twins, i: int, anchor: bool)
    requires
        are_alike(t),
        0 <= i < t.a.len(),
        !text::is_break(t.a[i]),
    ensures
        read_alike(
            t,
            properties::node_name(t.a, i, anchor),
            properties::node_name(t.b, to(t, i), anchor),
        ),
{
    lemma_behind(t, i);
    lemma_run(t, Run::Name, i + 1);
}

pub proof fn lemma_tag(t: Twins, i: int, handles: Map<Seq<char>, Seq<char>>)
    requires
        are_alike(t),
        0 <= i < t.a.len(),
        !text::is_break(t.a[i]),
    ensures
        read_alike(
            t,
            properties::tag(t.a, i, handles),
            properties::tag(t.b, to(t, i), handles),
        ),
{
    lemma_behind(t, i);
    lemma_here(t, i + 1);
    if reader::char_at(t.a, i + 1) == Some('<') {
        let e = lex::run_end(Run::Uri, t.a, i + 2);
        lemma_run(t, Run::Uri, i + 2);
        lemma_here(t, e);
    } else {
        let e = lex::run_end(Run::TagWord, t.a, i + 1);
        lemma_run(t, Run::TagWord, i + 1);
        lemma_here(t, e);
        if reader::char_at(t.a, e) == Some('!') {
            lemma_run(t, Run::TagWord, e + 1);
        }
    }
}

pub proof fn lemma_directive(
    t: Twins,
    i: int,
    handles: Map<Seq<char>, Seq<char>>,
    yaml_seen: bool,
)
    requires
        are_alike(t),
        0 <= i < t.a.len(),
        !text::is_break(t.a[i]),
    ensures
        match (
            properties::directive(t.a, i, handles, yaml_seen),
            properties::directive(t.b, to(t, i), handles, yaml_seen),
        ) {
            (Ok(first), Ok(second)) => {
                &&& second == Directive { end: to(t, first.end), ..first }
                &&& in_first(t, first.end)
            },
            (Err(_), Err(_)) => true,
            _ => false,
        },
{
    lemma_behind(t, i);
    let n = lex::run_end(Run::Word, t.a, i + 1);
    lemma_run(t, Run::Word, i + 1);
    let a = lex::run_end(Run::Blanks, t.a, n);
    lemma_run(t, Run::Blanks, n);
    let a_end = lex::run_end(Run::Word, t.a, a);
    lemma_run(t, Run::Word, a);
    let b = lex::run_end(Run::Blanks, t.a, a_end);
    lemma_run(t, Run::Blanks, a_end);
    let b_end = lex::run_end(Run::Word, t.a, b);
    lemma_run(t, Run::Word, b);
    lemma_run(t, Run::Line, b_end);
    lemma_run(t, Run::Line, b);
    lemma_run(t, Run::Line, n);
    lemma_here(t, b);
}

/// What a character introduces.
pub proof fn lemma_introduced(
    t: Twins,
    i: int,
    handles: Map<Seq<char>, Seq<char>>,
    indent: int,
)
    requires
        are_alike(t),
        0 <= i < t.a.len(),
        !text::is_break(t.a[i]),
    ensures
        match (
            model::introduced(t.a, i, handles, indent),
            model::introduced(t.b, to(t, i), handles, indent),
        ) {
            (Ok((kind, end)), Ok((other, at))) => {
                &&& kind == other
                &&& in_first(t, end)
                &&& at == to(t, end)
            },
            (Err(_), Err(_)) => true,
            _ => false,
        },
{
    lemma_behind(t, i);
    lemma_here(t, i);
    lemma_here(t, i + 1);
    let c = t.a[i];
    let p = to(t, i);
    if c == '\'' {
        lemma_single_quoted(t, i, p, i + 1, Seq::empty());
    } else if c == '"' {
        lemma_double_quoted(t, i, p, i + 1, Seq::empty());
    } else if c == '&' || c == '*' {
        lemma_node_name(t, i, c == '&');
    } else if c == '!' {
        lemma_tag(t, i, handles);
    } else {
        lemma_block_scalar(t, i, p, i + 1, c == '|', indent);
    }
}

// ---------------------------------------------------------------------------
// Gaps
// ---------------------------------------------------------------------------

/// The gap at the same place of the second text.
pub open spec fn moved(t: Twins, g: Gap) -> Gap {
    Gap { pos: to(t, g.pos), ..g }
}

/// The gap past the line break character at its place.
spec fn past_break(g: Gap, block: bool) -> Gap {
    Gap {
        pos: g.pos + 1,
        separated: true,
        key_allowed: g.key_allowed || block,
        at_line_start: true,
        tab_in_indent: false,
    }
}

/// A gap is skipped alike.
pub proof fn lemma_gap(t: Twins, block: bool, g: Gap)
    requires
        are_alike(t),
        in_first(t, g.pos),
    ensures
        match (model::skip_gap(t.a, block, g), model::skip_gap(t.b, block, moved(t, g))) {
            (Ok(first), Ok(second)) => in_first(t, first.pos) && second == moved(t, first),
            (Err(_), Err(_)) => true,
            _ => false,
        },
    decreases t.a.len() - g.pos,
{
    let i = g.pos;
    let other = moved(t, g);
    lemma_here(t, i);
    if i < t.a.len() {
        let c = t.a[i];
        if c == ' ' {
            lemma_gap(t, block, Gap { pos: i + 1, separated: true, ..g });
        } else if c == '\t' {
            let tab_in_indent = g.tab_in_indent || block && g.at_line_start;
            lemma_gap(t, block, Gap { pos: i + 1, separated: true, tab_in_indent, ..g });
        } else if text::is_break(c) {
            let next = past_break(g, block);
            lemma_gap(t, block, next);
            let once = past_break(other, block);
            assert(model::skip_gap(t.b, block, other) == model::skip_gap(t.b, block, once));
            if t.cr {
                let twice = past_break(once, block);
                assert(model::skip_gap(t.b, block, once) == model::skip_gap(t.b, block, twice));
                assert(twice == moved(t, next));
            } else {
                assert(once == moved(t, next));
            }
        } else if c == '#' && g.separated {
            lemma_run(t, Run::Line, i);
            lex::lemma_run_end(Run::Line, t.a, i + 1);
            lex::lemma_run_end(Run::Line, t.b, to(t, i) + 1);
            lemma_gap(t, block, Gap { pos: lex::run_end(Run::Line, t.a, i), ..g });
        }
    }
}

} // verus!
