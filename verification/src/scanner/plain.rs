//! Plain (unquoted) scalars.

use crate::error::Position;
use crate::scanner::lex;
use crate::scanner::lex::{
    break_here, consume_line_break, indent_of, marker_ahead, push_fold, separator_ahead,
    skip_blank_lines, terminator_next, value_indicator,
};
use crate::scanner::reader;
use crate::scanner::reader::Reader;
use crate::text;
use crate::text::{blank_char, break_char, flow_char};
use vstd::prelude::*;

verus! {

/// The content of a plain scalar on one line cannot go past `i`: end of input,
/// a line break, a flow indicator, a value indicator, or the space before a
/// comment.
pub open spec fn plain_stop(text: Seq<char>, i: int) -> bool {
    match reader::char_at(text, i) {
        None => true,
        Some(c) => {
            ||| text::is_break(c)
            ||| text::is_flow_indicator(c)
            ||| lex::value_indicator_at(text, i)
            ||| c == ' ' && reader::char_at(text, i + 1) == Some('#')
        },
    }
}

/// Where plain content that starts at `i` stops on its line.
pub open spec fn plain_line_end(text: Seq<char>, i: int) -> int
    decreases text.len() - i,
{
    if 0 <= i && !plain_stop(text, i) {
        plain_line_end(text, i + 1)
    } else {
        i
    }
}

/// A line whose content begins at `i` continues a plain scalar. In block
/// context it must be indented deeper than `indent`, and it must not begin a
/// document marker, a comment or a new construct.
pub open spec fn continues_plain(text: Seq<char>, i: int, flow: bool, indent: int) -> bool {
    match reader::char_at(text, i) {
        None => false,
        Some(c) => {
            &&& c != '#'
            &&& !lex::any_marker_at(text, i)
            &&& !(flow && text::is_flow_indicator(c))
            &&& !lex::value_indicator_at(text, i)
            &&& !(c == '-' && !flow && lex::separator_at(text, i + 1))
            &&& !(c == '?' && lex::terminator_at(text, i + 1))
            &&& flow || lex::indent_at(text, i) > indent
        },
    }
}

/// A plain scalar: its folded text, where scanning stops, and where its last
/// content character ends.
#[verifier::ext_equal]
pub struct PlainScalar {
    pub value: Seq<char>,
    pub end: int,
    pub content_end: int,
}

/// The plain scalar whose content begins at `i`. Each line is trimmed; a single
/// line break folds to a space, blank lines fold to newlines.
pub open spec fn plain_scalar(text: Seq<char>, i: int, flow: bool, indent: int) -> PlainScalar
    decreases text.len() - i,
{
    let q = plain_line_end(text, i);
    let line = text::trim_blanks(text.subrange(i, q));
    let only = PlainScalar { value: line, end: q, content_end: i + line.len() };
    if lex::break_at(text, q) {
        let next = lex::blank_lines(text, lex::after_break(text, q));
        if !continues_plain(text, next.0, flow, indent) {
            only
        } else if plain_stop(text, next.0) {
            PlainScalar { end: next.0, ..only }
        } else {
            proof {
                lemma_plain_line_end(text, i);
                lex::lemma_blank_lines(text, lex::after_break(text, q));
            }
            let rest = plain_scalar(text, next.0, flow, indent);
            PlainScalar { value: line + lex::fold_text(next.1) + rest.value, ..rest }
        }
    } else {
        only
    }
}

/// Plain content stops at the first place that stops it.
pub proof fn lemma_plain_line_end(text: Seq<char>, i: int)
    ensures
        i <= plain_line_end(text, i),
        0 <= i <= text.len() ==> plain_line_end(text, i) <= text.len(),
        0 <= i ==> plain_stop(text, plain_line_end(text, i)),
        forall|j: int| i <= j < plain_line_end(text, i) ==> !plain_stop(text, j),
    decreases text.len() - i,
{
    if 0 <= i && !plain_stop(text, i) {
        lemma_plain_line_end(text, i + 1);
    }
}

/// A stretch without stops that a stop ends is the whole line.
pub proof fn lemma_plain_line_is(text: Seq<char>, i: int, e: int)
    requires
        0 <= i <= e,
        forall|j: int| i <= j < e ==> !plain_stop(text, j),
        plain_stop(text, e),
    ensures
        plain_line_end(text, i) == e,
    decreases e - i,
{
    if i < e {
        assert(!plain_stop(text, i));
        lemma_plain_line_is(text, i + 1, e);
    }
}

/// A plain scalar whose first character is content consumes that character.
pub proof fn lemma_plain_progress(text: Seq<char>, i: int, flow: bool, indent: int)
    requires
        0 <= i < text.len(),
        !plain_stop(text, i),
    ensures
        i < plain_scalar(text, i, flow, indent).end <= text.len(),
    decreases text.len() - i,
{
    let q = plain_line_end(text, i);
    lemma_plain_line_end(text, i);
    lemma_plain_line_end(text, i + 1);
    let next = lex::blank_lines(text, lex::after_break(text, q));
    lex::lemma_blank_lines(text, lex::after_break(text, q));
    if lex::break_at(text, q) && continues_plain(text, next.0, flow, indent) && !plain_stop(
        text,
        next.0,
    ) {
        lemma_plain_progress(text, next.0, flow, indent);
    }
}

fn stops_here(r: &Reader) -> (b: bool)
    requires
        r.wf(),
    ensures
        b == plain_stop(r.text(), r.at()),
{
    match r.peek() {
        None => true,
        Some(c) => break_char(c) || flow_char(c) || value_indicator(r) || (c == ' '
            && r.peek_nth(1) == Some('#')),
    }
}

/// Whether the line whose content is at the cursor continues a plain scalar.
fn continues_here(r: &Reader, flow: bool, indent: i128) -> (b: bool)
    requires
        r.wf(),
    ensures
        b == continues_plain(r.text(), r.at(), flow, indent as int),
{
    match r.peek() {
        None => false,
        Some(c) => c != '#' && !marker_ahead(r, '-') && !marker_ahead(r, '.') && !(flow && flow_char(
            c,
        )) && !value_indicator(r) && !(c == '-' && !flow && separator_ahead(r, 1)) && !(c == '?'
            && terminator_next(r)) && (flow || indent_of(r) > indent),
    }
}

/// Trimming the blanks after position `e` leaves what lies before it.
proof fn lemma_trim_run(text: Seq<char>, i: int, e: int, q: int)
    requires
        0 <= i <= e <= q <= text.len(),
        forall|j: int| e <= j < q ==> text::is_blank(#[trigger] text[j]),
        e == i || !text::is_blank(text[e - 1]),
    ensures
        text::trim_blanks(text.subrange(i, q)) == text.subrange(i, e),
    decreases q - e,
{
    let s = text.subrange(i, q);
    if e < q {
        assert(text::is_blank(text[q - 1]));
        assert(s.last() == text[q - 1]);
        assert(s.drop_last() == text.subrange(i, q - 1));
        lemma_trim_run(text, i, e, q - 1);
    } else if i < e {
        assert(s.last() == text[e - 1]);
    }
}

/// Scans the plain content on the current line, up to what stops it; returns
/// the trimmed content and the position where it ends.
fn scan_plain_line(r: &mut Reader) -> (res: (String, Position))
    requires
        old(r).wf(),
    ensures
        final(r).wf(),
        final(r).text() == old(r).text(),
        final(r).at() == plain_line_end(old(r).text(), old(r).at()),
        ({
            let line = text::trim_blanks(old(r).text().subrange(old(r).at(), final(r).at()));
            &&& res.0@ == line
            &&& res.1 == reader::position_at(old(r).text(), old(r).at() + line.len())
        }),
{
    let from: usize = r.consumed();
    let mut end: usize = from;
    let mut end_position = r.position();
    proof {
        r.lemma_bounds();
    }
    while !stops_here(r)
        invariant
            r.wf(),
            r.text() == old(r).text(),
            from == old(r).at(),
            0 <= from <= end <= r.at() <= r.text().len() <= usize::MAX,
            plain_line_end(r.text(), r.at()) == plain_line_end(old(r).text(), old(r).at()),
            end_position == reader::position_at(r.text(), end as int),
            forall|j: int| end <= j < r.at() ==> text::is_blank(#[trigger] r.text()[j]),
            end == from || !text::is_blank(r.text()[end - 1]),
        decreases r.text().len() - r.at(),
    {
        let blank = match r.advance() {
            Some(c) => blank_char(c),
            None => true,
        };
        if !blank {
            end = r.consumed();
            end_position = r.position();
        }
        proof {
            r.lemma_bounds();
        }
    }
    proof {
        lemma_trim_run(r.text(), from as int, end as int, r.at());
    }
    let line = r.slice(from, end);
    (line, end_position)
}

/// Scans a plain scalar, folding multi-line continuations per YAML 1.2.
/// A single line break folds to a space; blank lines fold to newlines; each
/// line's leading/trailing whitespace is stripped. A continuation line must
/// be more indented than the current block indent (block context) or simply
/// present (flow context), and must not begin a document marker, comment, or
/// a new construct. Returns the text and the position where its content ends.
pub fn scan_plain(r: &mut Reader, flow: bool, indent: i128) -> (res: (String, Position))
    requires
        old(r).wf(),
    ensures
        final(r).wf(),
        final(r).text() == old(r).text(),
        ({
            let scalar = plain_scalar(old(r).text(), old(r).at(), flow, indent as int);
            &&& final(r).at() == scalar.end
            &&& res.0@ == scalar.value
            &&& res.1 == reader::position_at(old(r).text(), scalar.content_end)
        }),
{
    let ghost text = r.text();
    let ghost total = plain_scalar(text, r.at(), flow, indent as int);
    let ghost mut line_start = r.at();
    let ghost mut before = Seq::<char>::empty();
    let (mut value, mut end) = scan_plain_line(r);
    proof {
        assert(before + value@ == value@);
        assert(before + plain_scalar(text, line_start, flow, indent as int).value == total.value);
        r.lemma_bounds();
        lemma_plain_line_end(text, line_start);
    }
    while break_here(r)
        invariant_except_break
            r.wf(),
            r.text() == text,
            0 <= line_start <= r.at() <= text.len(),
            r.at() == plain_line_end(text, line_start),
            ({
                let here = plain_scalar(text, line_start, flow, indent as int);
                let line = text::trim_blanks(text.subrange(line_start, r.at()));
                &&& before + here.value == total.value
                &&& here.end == total.end
                &&& here.content_end == total.content_end
                &&& value@ == before + line
                &&& end == reader::position_at(text, line_start + line.len())
            }),
        ensures
            r.wf(),
            r.text() == text,
            value@ == total.value,
            r.at() == total.end,
            end == reader::position_at(text, total.content_end),
        decreases text.len() - r.at(),
    {
        let mark = r.mark();
        let ghost here = plain_scalar(text, line_start, flow, indent as int);
        consume_line_break(r);
        let ghost after = r.at();
        let blanks: usize = skip_blank_lines(r);
        proof {
            lex::lemma_blank_lines(text, after);
        }
        if !continues_here(r, flow, indent) {
            r.reset(mark);
            break ;
        }
        if stops_here(r) {
            break ;
        }
        push_fold(&mut value, blanks);
        proof {
            let rest = plain_scalar(text, r.at(), flow, indent as int);
            let line = text::trim_blanks(text.subrange(line_start, mark.at()));
            assert(here.value == line + lex::fold_text(blanks as nat) + rest.value);
            assert(value@ + rest.value == before + here.value);
            before = value@;
            line_start = r.at();
            lemma_plain_line_end(text, line_start);
        }
        let (line, line_end) = scan_plain_line(r);
        value.append(line.as_str());
        end = line_end;
        proof {
            r.lemma_bounds();
        }
    }
    (value, end)
}

} // verus!
