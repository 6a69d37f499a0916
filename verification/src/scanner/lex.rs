//! Runs of characters, line breaks and indicators.

use crate::error;
use crate::error::{Error, ErrorKind, Fault, Position, Span};
use crate::scanner::reader;
use crate::scanner::reader::Reader;
use crate::text;
use crate::text::{blank_char, break_char, flow_char, push_repeated, white_space_char};
use vstd::prelude::*;

verus! {

// ---------------------------------------------------------------------------
// What can follow an indicator
// ---------------------------------------------------------------------------

/// End of input, blank or line break at `i`.
pub open spec fn separator_at(text: Seq<char>, i: int) -> bool {
    match reader::char_at(text, i) {
        None => true,
        Some(c) => text::is_blank(c) || text::is_break(c),
    }
}

/// End of input, blank, line break or flow indicator at `i`: what makes the
/// `:` or `?` before it an indicator.
pub open spec fn terminator_at(text: Seq<char>, i: int) -> bool {
    separator_at(text, i) || (i < text.len() && text::is_flow_indicator(text[i]))
}

/// A `:` that separates a key from its value.
pub open spec fn value_indicator_at(text: Seq<char>, i: int) -> bool {
    reader::char_at(text, i) == Some(':') && terminator_at(text, i + 1)
}

/// Three times `c`, then a separator: a document marker.
pub open spec fn marker_at(text: Seq<char>, i: int, c: char) -> bool {
    &&& reader::char_at(text, i) == Some(c)
    &&& reader::char_at(text, i + 1) == Some(c)
    &&& reader::char_at(text, i + 2) == Some(c)
    &&& separator_at(text, i + 3)
}

/// A `---` or `...` marker.
pub open spec fn any_marker_at(text: Seq<char>, i: int) -> bool {
    marker_at(text, i, '-') || marker_at(text, i, '.')
}

/// The 0-based column of index `i`.
pub open spec fn indent_at(text: Seq<char>, i: int) -> int {
    reader::position_at(text, i).column - 1
}

pub fn separator_ahead(r: &Reader, n: usize) -> (b: bool)
    requires
        r.wf(),
    ensures
        b == separator_at(r.text(), r.at() + n),
{
    match r.peek_nth(n) {
        None => true,
        Some(c) => blank_char(c) || break_char(c),
    }
}

/// Whether the character after the current one makes it an indicator.
pub fn terminator_next(r: &Reader) -> (b: bool)
    requires
        r.wf(),
    ensures
        b == terminator_at(r.text(), r.at() + 1),
{
    proof {
        r.lemma_bounds();
    }
    match r.peek_nth(1) {
        None => true,
        Some(c) => blank_char(c) || break_char(c) || flow_char(c),
    }
}

/// Whether the cursor is at a `:` that separates a key from its value.
pub fn value_indicator(r: &Reader) -> (b: bool)
    requires
        r.wf(),
    ensures
        b == value_indicator_at(r.text(), r.at()),
{
    match r.peek() {
        Some(c) => c == ':' && terminator_next(r),
        None => false,
    }
}

/// Whether three times `c` and a separator lie ahead.
pub fn marker_ahead(r: &Reader, c: char) -> (b: bool)
    requires
        r.wf(),
    ensures
        b == marker_at(r.text(), r.at(), c),
{
    match (r.peek(), r.peek_nth(1), r.peek_nth(2)) {
        (Some(x), Some(y), Some(z)) => x == c && y == c && z == c && separator_ahead(r, 3),
        _ => false,
    }
}

/// The 0-based column of the cursor.
pub fn indent_of(r: &Reader) -> (n: i128)
    requires
        r.wf(),
    ensures
        n == indent_at(r.text(), r.at()),
        n >= 0,
{
    proof {
        lemma_column_positive(r.text(), r.at());
    }
    r.position().column as i128 - 1
}

/// Columns count from one.
pub proof fn lemma_column_positive(text: Seq<char>, i: int)
    ensures
        reader::column_at(text, i) >= 1,
        reader::position_at(text, i).column >= 1,
    decreases i,
{
    if i > 0 {
        lemma_column_positive(text, i - 1);
    }
}

// ---------------------------------------------------------------------------
// Runs
// ---------------------------------------------------------------------------

/// The kinds of run that the scanner skips or collects.
#[derive(Clone, Copy, PartialEq, Eq, Structural)]
pub enum Run {
    /// Spaces and tabs.
    Blanks,
    /// Spaces.
    Spaces,
    /// Everything up to a line break.
    Line,
    /// Everything up to white space.
    Word,
    /// An anchor or alias name.
    Name,
    /// A piece of a tag shorthand: a name without `!`.
    TagWord,
    /// The URI of a verbatim tag.
    Uri,
}

/// The character at `i` belongs to a run of the given kind.
pub open spec fn in_run(run: Run, text: Seq<char>, i: int) -> bool {
    0 <= i < text.len() && {
        let c = text[i];
        match run {
            Run::Blanks => text::is_blank(c),
            Run::Spaces => c == ' ',
            Run::Line => !text::is_break(c),
            Run::Word => !text::is_white_space(c),
            Run::Name => !text::is_white_space(c) && !text::is_flow_indicator(c)
                && !value_indicator_at(text, i),
            Run::TagWord => !text::is_white_space(c) && !text::is_flow_indicator(c)
                && !value_indicator_at(text, i) && c != '!',
            Run::Uri => !text::is_white_space(c) && c != '>',
        }
    }
}

/// Where the run that starts at `i` ends.
pub open spec fn run_end(run: Run, text: Seq<char>, i: int) -> int
    decreases text.len() - i,
{
    if in_run(run, text, i) {
        run_end(run, text, i + 1)
    } else {
        i
    }
}

/// A run ends at the first character that does not belong to it.
pub proof fn lemma_run_end(run: Run, text: Seq<char>, i: int)
    ensures
        i <= run_end(run, text, i),
        i <= text.len() ==> run_end(run, text, i) <= text.len(),
        !in_run(run, text, run_end(run, text, i)),
        forall|j: int| i <= j < run_end(run, text, i) ==> in_run(run, text, j),
    decreases text.len() - i,
{
    if in_run(run, text, i) {
        lemma_run_end(run, text, i + 1);
    }
}

/// A stretch of run characters that a foreign one ends is the whole run.
pub proof fn lemma_run_is(run: Run, text: Seq<char>, i: int, e: int)
    requires
        i <= e,
        forall|j: int| i <= j < e ==> in_run(run, text, j),
        !in_run(run, text, e),
    ensures
        run_end(run, text, i) == e,
    decreases e - i,
{
    if i < e {
        assert(in_run(run, text, i));
        lemma_run_is(run, text, i + 1, e);
    }
}

fn in_run_here(r: &Reader, run: Run) -> (b: bool)
    requires
        r.wf(),
    ensures
        b == in_run(run, r.text(), r.at()),
{
    proof {
        r.lemma_bounds();
    }
    match r.peek() {
        None => false,
        Some(c) => match run {
            Run::Blanks => blank_char(c),
            Run::Spaces => c == ' ',
            Run::Line => !break_char(c),
            Run::Word => !white_space_char(c),
            Run::Name => !white_space_char(c) && !flow_char(c) && !value_indicator(r),
            Run::TagWord => !white_space_char(c) && !flow_char(c) && !value_indicator(r) && c != '!',
            Run::Uri => !white_space_char(c) && c != '>',
        },
    }
}

/// Moves past a run.
pub fn skip_run(r: &mut Reader, run: Run)
    requires
        old(r).wf(),
    ensures
        final(r).wf(),
        final(r).text() == old(r).text(),
        final(r).at() >= old(r).at(),
        final(r).at() == run_end(run, old(r).text(), old(r).at()),
{
    while in_run_here(r, run)
        invariant
            r.wf(),
            r.at() >= old(r).at(),
            r.text() == old(r).text(),
            run_end(run, r.text(), r.at()) == run_end(run, old(r).text(), old(r).at()),
        decreases r.text().len() - r.at(),
    {
        r.advance();
    }
}

/// Moves past a run and returns its characters.
pub fn take_run(r: &mut Reader, run: Run) -> (s: String)
    requires
        old(r).wf(),
    ensures
        final(r).wf(),
        final(r).text() == old(r).text(),
        final(r).at() >= old(r).at(),
        final(r).at() == run_end(run, old(r).text(), old(r).at()),
        s@ == old(r).text().subrange(old(r).at(), final(r).at()),
{
    let from: usize = r.consumed();
    skip_run(r, run);
    let to: usize = r.consumed();
    proof {
        r.lemma_bounds();
        lemma_run_end(run, old(r).text(), old(r).at());
    }
    r.slice(from, to)
}

/// The number of spaces at the cursor.
pub fn leading_spaces(r: &Reader) -> (n: usize)
    requires
        r.wf(),
    ensures
        r.at() + n == run_end(Run::Spaces, r.text(), r.at()),
        r.at() + n <= r.text().len(),
{
    proof {
        r.lemma_bounds();
    }
    let mut n: usize = 0;
    while r.peek_nth(n) == Some(' ')
        invariant
            r.wf(),
            0 <= r.at(),
            r.at() + n <= r.text().len() <= usize::MAX,
            run_end(Run::Spaces, r.text(), r.at()) == run_end(Run::Spaces, r.text(), r.at() + n),
        decreases r.text().len() - r.at() - n,
    {
        n += 1;
    }
    n
}

/// Moves past `n` characters.
pub fn advance_by(r: &mut Reader, n: usize)
    requires
        old(r).wf(),
        old(r).at() + n <= old(r).text().len(),
    ensures
        final(r).wf(),
        final(r).text() == old(r).text(),
        final(r).at() == old(r).at() + n,
{
    let mut i: usize = 0;
    while i < n
        invariant
            r.wf(),
            r.text() == old(r).text(),
            i <= n,
            r.at() == old(r).at() + i,
            old(r).at() + n <= old(r).text().len(),
        decreases n - i,
    {
        r.advance();
        i += 1;
    }
}

// ---------------------------------------------------------------------------
// Line breaks
// ---------------------------------------------------------------------------

/// There is a line break at `i`.
pub open spec fn break_at(text: Seq<char>, i: int) -> bool {
    0 <= i < text.len() && text::is_break(text[i])
}

/// Past the line break at `i` (`\n`, `\r\n`, or lone `\r`), if there is one.
pub open spec fn after_break(text: Seq<char>, i: int) -> int {
    if !break_at(text, i) {
        i
    } else if text[i] == '\r' && reader::char_at(text, i + 1) == Some('\n') {
        i + 2
    } else {
        i + 1
    }
}

/// Skips lines that hold blanks only, from the start of a line: where the next
/// line's content begins, and how many lines were skipped.
pub open spec fn blank_lines(text: Seq<char>, i: int) -> (int, nat)
    decreases text.len() - i,
{
    let b = run_end(Run::Blanks, text, i);
    if break_at(text, b) {
        proof {
            lemma_run_end(Run::Blanks, text, i);
        }
        let rest = blank_lines(text, after_break(text, b));
        (rest.0, rest.1 + 1)
    } else {
        (b, 0)
    }
}

/// The content that follows blank lines is neither blank nor a break.
pub proof fn lemma_blank_lines(text: Seq<char>, i: int)
    ensures
        i <= blank_lines(text, i).0,
        i <= text.len() ==> blank_lines(text, i).0 <= text.len(),
        !break_at(text, blank_lines(text, i).0),
        !in_run(Run::Blanks, text, blank_lines(text, i).0),
        i + blank_lines(text, i).1 <= blank_lines(text, i).0,
    decreases text.len() - i,
{
    let b = run_end(Run::Blanks, text, i);
    lemma_run_end(Run::Blanks, text, i);
    if break_at(text, b) {
        lemma_blank_lines(text, after_break(text, b));
    }
}

/// What a line break followed by `blanks` blank lines folds to.
pub open spec fn fold_text(blanks: nat) -> Seq<char> {
    if blanks == 0 {
        seq![' ']
    } else {
        text::repeated('\n', blanks)
    }
}

pub fn push_fold(s: &mut String, blanks: usize)
    ensures
        final(s)@ == old(s)@ + fold_text(blanks as nat),
{
    if blanks == 0 {
        s.push(' ');
        assert(s@ == old(s)@ + fold_text(0));
    } else {
        push_repeated(s, '\n', blanks);
    }
}

/// Whether the cursor is at a line break.
pub fn break_here(r: &Reader) -> (b: bool)
    requires
        r.wf(),
    ensures
        b == break_at(r.text(), r.at()),
{
    proof {
        r.lemma_bounds();
    }
    match r.peek() {
        None => false,
        Some(c) => break_char(c),
    }
}

/// Consumes a YAML line break (`\n`, `\r\n`, or lone `\r`).
pub fn consume_line_break(r: &mut Reader)
    requires
        old(r).wf(),
    ensures
        final(r).wf(),
        final(r).text() == old(r).text(),
        final(r).at() == after_break(old(r).text(), old(r).at()),
{
    proof {
        r.lemma_bounds();
    }
    match r.peek() {
        Some('\r') => {
            r.advance();
            if r.peek() == Some('\n') {
                r.advance();
            }
        },
        Some('\n') => {
            r.advance();
        },
        _ => {},
    }
}

/// Moves from the start of a line to the content of the next line that has
/// any; returns how many blank lines were skipped.
pub fn skip_blank_lines(r: &mut Reader) -> (n: usize)
    requires
        old(r).wf(),
    ensures
        final(r).wf(),
        final(r).text() == old(r).text(),
        final(r).at() >= old(r).at(),
        final(r).at() == blank_lines(old(r).text(), old(r).at()).0,
        n == blank_lines(old(r).text(), old(r).at()).1,
{
    let ghost start = r.at();
    let mut n: usize = 0;
    skip_run(r, Run::Blanks);
    proof {
        r.lemma_bounds();
        lemma_run_end(Run::Blanks, old(r).text(), start);
        lemma_blank_lines(old(r).text(), start);
    }
    while break_here(r)
        invariant
            r.wf(),
            r.text() == old(r).text(),
            ({
                let here = blank_lines(r.text(), r.at());
                let total = blank_lines(old(r).text(), old(r).at());
                &&& here.0 == total.0
                &&& here.1 + n == total.1
            }),
            r.at() == run_end(Run::Blanks, r.text(), r.at()),
            0 <= r.at(),
            0 <= old(r).at(),
            old(r).at() + blank_lines(old(r).text(), old(r).at()).1 <= r.text().len()
                <= usize::MAX,
        decreases r.text().len() - r.at(),
    {
        let ghost before = r.at();
        consume_line_break(r);
        let ghost line = r.at();
        skip_run(r, Run::Blanks);
        proof {
            lemma_run_end(Run::Blanks, old(r).text(), line);
            assert(blank_lines(r.text(), before).1 == blank_lines(r.text(), line).1 + 1);
            lemma_run_end(Run::Blanks, r.text(), r.at());
            assert(blank_lines(r.text(), line) == blank_lines(r.text(), r.at()));
            r.lemma_bounds();
        }
        n += 1;
    }
    n
}

// ---------------------------------------------------------------------------
// Faults
// ---------------------------------------------------------------------------

/// The fault of a scan that began at `start` and got to `i`.
pub open spec fn scan_fault(text: Seq<char>, start: int, i: int, message: Seq<char>) -> Fault {
    error::fault(ErrorKind::Scan, message, reader::span_at(text, start, i))
}

/// What stops a scan: the fault, and the place that it got to.
#[verifier::ext_equal]
pub struct Stop {
    pub fault: Fault,
    pub at: int,
}

/// The stop of a scan that began at `start` and got to `i`.
pub open spec fn stop(text: Seq<char>, start: int, i: int, message: Seq<char>) -> Stop {
    Stop { fault: scan_fault(text, start, i, message), at: i }
}

/// The error of a scan that began at `start` and got to the cursor.
pub fn scan_error(r: &Reader, start: Position, message: &str) -> (e: Error)
    requires
        r.wf(),
    ensures
        e@ == error::fault(
            ErrorKind::Scan,
            message@,
            Span { start, end: reader::position_at(r.text(), r.at()) },
        ),
{
    Error::at(ErrorKind::Scan, message, Span::new(start, r.position()))
}

} // verus!
