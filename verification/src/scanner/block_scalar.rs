//! Literal (`|`) and folded (`>`) block scalars.

use crate::error::{Error, Position};
use crate::scanner::lex;
use crate::scanner::lex::{
    advance_by, consume_line_break, leading_spaces, push_fold, scan_error, skip_run, take_run, Run,
    Stop,
};
use crate::scanner::reader;
use crate::scanner::reader::Reader;
use crate::text;
use crate::text::{break_char, push_repeated, without_trailing_newlines};
use vstd::prelude::*;

verus! {

/// What becomes of the trailing line breaks of a block scalar.
#[derive(Debug, Clone, Copy, PartialEq, Eq, Structural)]
pub enum Chomping {
    /// One is kept, if there is content.
    Clip,
    /// None is kept.
    Strip,
    /// All are kept.
    Keep,
}

// ---------------------------------------------------------------------------
// The header
// ---------------------------------------------------------------------------

/// What a block scalar header says: the chomping, and the indentation
/// indicator, if it has one.
pub struct Header {
    pub chomp: Chomping,
    pub indent: Option<nat>,
}

/// The indicators at `i`, after `header` was read: each kind at most once, in
/// any order. Also the place after them.
pub open spec fn indicators(text: Seq<char>, i: int, header: Header) -> (Header, int)
    decreases text.len() - i,
{
    match reader::char_at(text, i) {
        Some(c) => if (c == '-' || c == '+') && header.chomp == Chomping::Clip {
            let chomp = if c == '-' {
                Chomping::Strip
            } else {
                Chomping::Keep
            };
            indicators(text, i + 1, Header { chomp, ..header })
        } else if '1' <= c <= '9' && header.indent is None {
            let indent = Some((c as int - '0' as int) as nat);
            indicators(text, i + 1, Header { indent, ..header })
        } else {
            (header, i)
        },
        None => (header, i),
    }
}

/// The header at `i` and the start of the line after it. Only blanks and, after
/// at least one of them, a comment may follow the indicators.
pub open spec fn block_header(text: Seq<char>, start: int, i: int) -> Result<(Header, int), Stop> {
    let said = indicators(text, i, Header { chomp: Chomping::Clip, indent: None });
    let b = lex::run_end(Run::Blanks, text, said.1);
    match reader::char_at(text, b) {
        None => Ok((said.0, b)),
        Some(c) => if text::is_break(c) {
            Ok((said.0, lex::after_break(text, b)))
        } else if c == '#' && b > said.1 {
            Ok((said.0, lex::after_break(text, lex::run_end(Run::Line, text, b))))
        } else {
            Err(lex::stop(text, start, b, "invalid block scalar header"@))
        },
    }
}

/// Indicators are consumed forward.
pub proof fn lemma_indicators(text: Seq<char>, i: int, header: Header)
    ensures
        i <= indicators(text, i, header).1,
        0 <= i <= text.len() ==> indicators(text, i, header).1 <= text.len(),
        header.indent matches Some(n) ==> indicators(text, i, header).0.indent == Some(n),
        header.indent is None ==> (indicators(text, i, header).0.indent matches Some(n) ==> 1 <= n
            <= 9),
    decreases text.len() - i,
{
    match reader::char_at(text, i) {
        Some(c) => {
            if (c == '-' || c == '+') && header.chomp == Chomping::Clip {
                let chomp = if c == '-' {
                    Chomping::Strip
                } else {
                    Chomping::Keep
                };
                lemma_indicators(text, i + 1, Header { chomp, ..header });
            } else if '1' <= c <= '9' && header.indent is None {
                let indent = Some((c as int - '0' as int) as nat);
                lemma_indicators(text, i + 1, Header { indent, ..header });
            }
        },
        None => {},
    }
}

/// The header ends at the start of a line or at the end of the input.
pub proof fn lemma_block_header(text: Seq<char>, start: int, i: int)
    requires
        0 <= i <= text.len(),
    ensures
        block_header(text, start, i) matches Ok(h) ==> i <= h.1 <= text.len(),
        block_header(text, start, i) matches Ok(h) ==> (h.0.indent matches Some(n) ==> 1 <= n <= 9),
{
    let said = indicators(text, i, Header { chomp: Chomping::Clip, indent: None });
    lemma_indicators(text, i, Header { chomp: Chomping::Clip, indent: None });
    let b = lex::run_end(Run::Blanks, text, said.1);
    lex::lemma_run_end(Run::Blanks, text, said.1);
    lex::lemma_run_end(Run::Line, text, b);
}

/// Parses the header after `|` or `>`.
fn scan_block_scalar_header(r: &mut Reader, start: Position, Ghost(from): Ghost<int>) -> (res:
    Result<(Chomping, Option<u8>), Error>)
    requires
        old(r).wf(),
        start == reader::position_at(old(r).text(), from),
    ensures
        final(r).wf(),
        final(r).text() == old(r).text(),
        final(r).at() >= old(r).at(),
        match block_header(old(r).text(), from, old(r).at()) {
            Ok(h) => {
                &&& res matches Ok(said)
                &&& said.0 == h.0.chomp
                &&& (said.1 matches Some(n) ==> h.0.indent == Some(n as nat))
                &&& (said.1 is None ==> h.0.indent is None)
                &&& final(r).at() == h.1
            },
            Err(f) => res matches Err(e) && e@ == f.fault && final(r).at() == f.at,
        },
{
    let ghost text = r.text();
    let ghost blank = Header { chomp: Chomping::Clip, indent: None };
    let ghost said = indicators(text, r.at(), blank);
    let mut chomp = Chomping::Clip;
    let mut indent: Option<u8> = None;
    loop
        invariant_except_break
            r.wf(),
            r.at() >= old(r).at(),
            r.text() == text,
            said == indicators(
                text,
                r.at(),
                Header {
                    chomp,
                    indent: match indent {
                        Some(n) => Some(n as nat),
                        None => None,
                    },
                },
            ),
        ensures
            r.wf(),
            r.at() >= old(r).at(),
            r.text() == text,
            said.1 == r.at(),
            said.0.chomp == chomp,
            indent matches Some(n) ==> said.0.indent == Some(n as nat),
            indent is None ==> said.0.indent is None,
        decreases text.len() - r.at(),
    {
        proof {
            r.lemma_bounds();
        }
        match r.peek() {
            None => {
                break;
            },
            Some(c) => {
                if c == '-' && chomp == Chomping::Clip {
                    r.advance();
                    chomp = Chomping::Strip;
                } else if c == '+' && chomp == Chomping::Clip {
                    r.advance();
                    chomp = Chomping::Keep;
                } else if '1' <= c && c <= '9' && indent.is_none() {
                    r.advance();
                    indent = Some(c as u8 - 48);
                } else {
                    break;
                }
            },
        }
    }
    proof {
        r.lemma_bounds();
        lex::lemma_run_end(Run::Blanks, text, r.at());
    }
    let before: usize = r.consumed();
    skip_run(r, Run::Blanks);
    let had_space: bool = r.consumed() > before;
    match r.peek() {
        None => {},
        Some(c) => {
            if break_char(c) {
            } else if c == '#' && had_space {
                skip_run(r, Run::Line);
            } else {
                return Err(scan_error(r, start, "invalid block scalar header"));
            }
        },
    }
    consume_line_break(r);
    Ok((chomp, indent))
}

// ---------------------------------------------------------------------------
// The lines
// ---------------------------------------------------------------------------

/// A content line without its indentation, and whether it was indented deeper
/// than the content is.
#[verifier::ext_equal]
pub struct BlockLine {
    pub text: Seq<char>,
    pub more: bool,
}

/// The content lines from `i`, the start of a line, and the place where they
/// end. `indent` is the content indentation once it is known; until then the
/// first line that is not blank sets it, if it is deeper than `parent`.
pub open spec fn block_lines(text: Seq<char>, i: int, parent: int, indent: Option<int>) -> (
    Seq<BlockLine>,
    int,
)
    decreases text.len() - i,
{
    let b = lex::run_end(Run::Spaces, text, i);
    let spaces = b - i;
    if !(0 <= i && b < text.len()) {
        (Seq::empty(), i)
    } else if text::is_break(text[b]) {
        proof {
            lex::lemma_run_end(Run::Spaces, text, i);
        }
        let rest = block_lines(text, lex::after_break(text, b), parent, indent);
        (seq![BlockLine { text: Seq::empty(), more: false }] + rest.0, rest.1)
    } else {
        let depth = match indent {
            Some(n) => n,
            None => spaces,
        };
        let e = lex::run_end(Run::Line, text, i + depth);
        let line = BlockLine { text: text.subrange(i + depth, e), more: spaces > depth };
        if spaces < depth || depth < 0 || indent is None && spaces <= parent {
            (Seq::empty(), i)
        } else if e >= text.len() {
            (seq![line], e)
        } else {
            proof {
                lex::lemma_run_end(Run::Spaces, text, i);
                lex::lemma_run_end(Run::Line, text, i + depth);
            }
            let rest = block_lines(text, lex::after_break(text, e), parent, Some(depth));
            (seq![line] + rest.0, rest.1)
        }
    }
}

/// The lines end inside the text.
pub proof fn lemma_block_lines(text: Seq<char>, i: int, parent: int, indent: Option<int>)
    requires
        0 <= i <= text.len(),
    ensures
        i <= block_lines(text, i, parent, indent).1 <= text.len(),
    decreases text.len() - i,
{
    let b = lex::run_end(Run::Spaces, text, i);
    lex::lemma_run_end(Run::Spaces, text, i);
    if b < text.len() {
        if text::is_break(text[b]) {
            lemma_block_lines(text, lex::after_break(text, b), parent, indent);
        } else {
            let depth = match indent {
                Some(n) => n,
                None => b - i,
            };
            let e = lex::run_end(Run::Line, text, i + depth);
            lex::lemma_run_end(Run::Line, text, i + depth);
            if !(b - i < depth || depth < 0 || indent is None && b - i <= parent) && e
                < text.len() {
                lemma_block_lines(text, lex::after_break(text, e), parent, Some(depth));
            }
        }
    }
}

/// Every line and a line break after each.
pub open spec fn literal_text(lines: Seq<BlockLine>) -> Seq<char>
    decreases lines.len(),
{
    if lines.len() == 0 {
        Seq::empty()
    } else {
        lines[0].text + seq!['\n'] + literal_text(lines.drop_first())
    }
}

/// What stands before a line that is not empty, after `blanks` empty ones.
/// `before` tells whether the previous line that is not empty was indented
/// deeper, if there was one. A deeper line on either side keeps every break;
/// otherwise a single break folds to a space, and of several one is lost.
pub open spec fn fold_between(before: Option<bool>, more: bool, blanks: nat) -> Seq<char> {
    match before {
        None => text::repeated('\n', blanks),
        Some(deeper) => if deeper || more {
            text::repeated('\n', blanks + 1)
        } else {
            lex::fold_text(blanks)
        },
    }
}

/// The folded text of `lines`, after `blanks` empty lines.
pub open spec fn folded_text(lines: Seq<BlockLine>, before: Option<bool>, blanks: nat) -> Seq<char>
    decreases lines.len(),
{
    if lines.len() == 0 {
        text::repeated('\n', if before is Some { blanks + 1 } else { blanks })
    } else if lines[0].text.len() == 0 {
        folded_text(lines.drop_first(), before, blanks + 1)
    } else {
        fold_between(before, lines[0].more, blanks) + lines[0].text + folded_text(
            lines.drop_first(),
            Some(lines[0].more),
            0,
        )
    }
}

/// A value with its trailing line breaks chomped.
pub open spec fn chomped(value: Seq<char>, chomp: Chomping) -> Seq<char> {
    let trimmed = text::trim_newlines(value);
    match chomp {
        Chomping::Strip => trimmed,
        Chomping::Clip => if trimmed.len() == 0 {
            trimmed
        } else {
            trimmed.push('\n')
        },
        Chomping::Keep => value,
    }
}

proof fn lemma_trimmed(s: Seq<char>)
    ensures
        text::trim_newlines(s).is_prefix_of(s),
        text::trim_newlines(s).len() > 0 ==> text::trim_newlines(s).last() != '\n',
        text::trim_newlines(text::trim_newlines(s)) == text::trim_newlines(s),
    decreases s.len(),
{
    if s.len() > 0 && s.last() == '\n' {
        lemma_trimmed(s.drop_last());
    }
}

/// Chomping concerns trailing line breaks only: before them every chomping gives
/// the same text. Stripping leaves none, clipping at most one, keeping all.
pub proof fn law_chomping_keeps_content(value: Seq<char>, chomp: Chomping)
    ensures
        text::trim_newlines(chomped(value, chomp)) == text::trim_newlines(value),
        chomped(value, Chomping::Strip).is_prefix_of(value),
        chomped(value, Chomping::Strip).len() > 0 ==> chomped(value, Chomping::Strip).last()
            != '\n',
        chomped(value, Chomping::Clip).len() <= chomped(value, Chomping::Strip).len() + 1,
        chomped(value, Chomping::Keep) == value,
{
    lemma_trimmed(value);
    let trimmed = text::trim_newlines(value);
    assert(trimmed.push('\n').drop_last() == trimmed);
}

/// The value that the content lines of a block scalar make.
pub open spec fn block_text(lines: Seq<BlockLine>, literal: bool, chomp: Chomping) -> Seq<char> {
    chomped(
        if literal {
            literal_text(lines)
        } else {
            folded_text(lines, None, 0)
        },
        chomp,
    )
}

/// The content indentation that an indicator of `n` asks for under `parent`.
pub open spec fn indicated_indent(parent: int, n: nat) -> int {
    if parent < 0 {
        n as int
    } else {
        parent + 1 + n
    }
}

/// The block scalar whose indicator at `start` is consumed, read from `i`: its
/// value and the place where it ends.
pub open spec fn block_scalar(
    text: Seq<char>,
    start: int,
    i: int,
    literal: bool,
    parent: int,
) -> Result<(Seq<char>, int), Stop> {
    match block_header(text, start, i) {
        Err(f) => Err(f),
        Ok((header, at)) => {
            let indent = match header.indent {
                Some(n) => Some(indicated_indent(parent, n)),
                None => None,
            };
            let lines = block_lines(text, at, parent, indent);
            Ok((block_text(lines.0, literal, header.chomp), lines.1))
        },
    }
}

/// A block scalar ends inside the text.
pub proof fn lemma_block_scalar(text: Seq<char>, start: int, i: int, literal: bool, parent: int)
    requires
        0 <= i <= text.len(),
    ensures
        block_scalar(text, start, i, literal, parent) matches Ok(s) ==> i <= s.1 <= text.len(),
{
    lemma_block_header(text, start, i);
    match block_header(text, start, i) {
        Err(_) => {},
        Ok((header, at)) => {
            let indent = match header.indent {
                Some(n) => Some(indicated_indent(parent, n)),
                None => None,
            };
            lemma_block_lines(text, at, parent, indent);
        },
    }
}

/// The model of the gathered lines.
spec fn lines_of(lines: Seq<(String, bool)>) -> Seq<BlockLine> {
    Seq::new(lines.len(), |i: int| BlockLine { text: lines[i].0@, more: lines[i].1 })
}

/// Joins literal lines; every line keeps its break.
fn assemble_literal(lines: &Vec<(String, bool)>) -> (value: String)
    ensures
        value@ == literal_text(lines_of(lines@)),
{
    let ghost all = lines_of(lines@);
    let mut value = String::new();
    let mut i: usize = 0;
    assert(all.skip(0) == all);
    while i < lines.len()
        invariant
            i <= lines.len(),
            all == lines_of(lines@),
            value@ + literal_text(all.skip(i as int)) == literal_text(all),
        decreases lines.len() - i,
    {
        assert(all.skip(i as int).drop_first() == all.skip(i + 1));
        let ghost before = value@;
        value.append(lines[i].0.as_str());
        value.push('\n');
        assert(value@ + literal_text(all.skip(i + 1)) == before + literal_text(all.skip(i as int)));
        i += 1;
    }
    value
}

/// Joins folded lines.
fn assemble_folded(lines: &Vec<(String, bool)>) -> (value: String)
    ensures
        value@ == folded_text(lines_of(lines@), None, 0),
{
    let ghost all = lines_of(lines@);
    let mut value = String::new();
    let mut blanks: usize = 0;
    let mut before: Option<bool> = None;
    let mut i: usize = 0;
    assert(all.skip(0) == all);
    while i < lines.len()
        invariant
            i <= lines.len(),
            blanks <= i,
            all == lines_of(lines@),
            value@ + folded_text(all.skip(i as int), before, blanks as nat) == folded_text(
                all,
                None,
                0,
            ),
        decreases lines.len() - i,
    {
        assert(all.skip(i as int).drop_first() == all.skip(i + 1));
        let ghost was = value@;
        let ghost rest = folded_text(all.skip(i as int), before, blanks as nat);
        let more: bool = lines[i].1;
        if lines[i].0.as_str().is_empty() {
            blanks += 1;
        } else {
            match before {
                None => push_repeated(&mut value, '\n', blanks),
                Some(deeper) => if deeper || more {
                    push_repeated(&mut value, '\n', blanks + 1);
                } else {
                    push_fold(&mut value, blanks);
                },
            }
            value.append(lines[i].0.as_str());
            assert(value@ + folded_text(all.skip(i + 1), Some(more), 0) == was + rest);
            before = Some(more);
            blanks = 0;
        }
        i += 1;
    }
    let ghost was = value@;
    if before.is_some() {
        value.push('\n');
    }
    push_repeated(&mut value, '\n', blanks);
    assert(value@ == was + folded_text(all.skip(i as int), before, blanks as nat));
    value
}

/// Applies the chomping to a value's trailing line breaks.
fn apply_chomping(value: String, chomp: Chomping) -> (r: String)
    ensures
        r@ == chomped(value@, chomp),
{
    match chomp {
        Chomping::Keep => value,
        Chomping::Strip => without_trailing_newlines(value.as_str()),
        Chomping::Clip => {
            let mut trimmed = without_trailing_newlines(value.as_str());
            if !trimmed.as_str().is_empty() {
                trimmed.push('\n');
            }
            trimmed
        },
    }
}

/// Gathers the content lines of a block scalar.
fn scan_block_lines(r: &mut Reader, parent: i128, given: Option<i128>) -> (lines: Vec<
    (String, bool),
>)
    requires
        old(r).wf(),
        given matches Some(n) ==> n >= 0,
    ensures
        final(r).wf(),
        final(r).text() == old(r).text(),
        final(r).at() >= old(r).at(),
        lines_of(lines@) == block_lines(
            old(r).text(),
            old(r).at(),
            parent as int,
            match given {
                Some(n) => Some(n as int),
                None => None,
            },
        ).0,
        final(r).at() == block_lines(
            old(r).text(),
            old(r).at(),
            parent as int,
            match given {
                Some(n) => Some(n as int),
                None => None,
            },
        ).1,
{
    let ghost text = r.text();
    let ghost total = block_lines(
        text,
        r.at(),
        parent as int,
        match given {
            Some(n) => Some(n as int),
            None => None,
        },
    );
    let mut indent: Option<i128> = given;
    let mut lines: Vec<(String, bool)> = Vec::new();
    let mut done = false;
    assert(lines_of(lines@) + total.0 == total.0);
    while !done
        invariant
            r.wf(),
            r.at() >= old(r).at(),
            r.text() == text,
            indent matches Some(n) ==> n >= 0,
            done ==> lines_of(lines@) == total.0 && r.at() == total.1,
            !done ==> {
                let rest = block_lines(
                    text,
                    r.at(),
                    parent as int,
                    match indent {
                        Some(n) => Some(n as int),
                        None => None,
                    },
                );
                lines_of(lines@) + rest.0 == total.0 && rest.1 == total.1
            },
        decreases text.len() - r.at() + if done { 0int } else { 1 },
    {
        proof {
            r.lemma_bounds();
            lex::lemma_run_end(Run::Spaces, text, r.at());
        }
        let ghost at = r.at();
        let ghost gathered = lines_of(lines@);
        let ghost rest = block_lines(
            text,
            r.at(),
            parent as int,
            match indent {
                Some(n) => Some(n as int),
                None => None,
            },
        );
        let spaces: usize = leading_spaces(r);
        match r.peek_nth(spaces) {
            None => {
                assert(gathered + rest.0 == gathered);
                done = true;
            },
            Some(c) => {
                if break_char(c) {
                    advance_by(r, spaces);
                    consume_line_break(r);
                    lines.push((String::new(), false));
                    assert(lines_of(lines@) == gathered + seq![
                        BlockLine { text: Seq::empty(), more: false },
                    ]);
                } else {
                    let depth: i128 = match indent {
                        Some(n) => n,
                        None => spaces as i128,
                    };
                    if (spaces as i128) < depth || (indent.is_none() && (spaces as i128)
                        <= parent) {
                        assert(gathered + rest.0 == gathered);
                        done = true;
                    } else {
                        proof {
                            lex::lemma_run_end(Run::Line, text, r.at() + depth);
                        }
                        let more: bool = spaces as i128 > depth;
                        advance_by(r, depth as usize);
                        let line = take_run(r, Run::Line);
                        let ghost model = BlockLine { text: line@, more };
                        lines.push((line, more));
                        indent = Some(depth);
                        assert(lines_of(lines@) == gathered + seq![model]);
                        if r.is_eof() {
                            done = true;
                        } else {
                            consume_line_break(r);
                        }
                    }
                }
            },
        }
    }
    lines
}

/// Scans the rest of a block scalar; its indicator is consumed and lies at
/// `start`. `parent` is the indentation of the block that holds it.
pub(crate) fn scan_block_scalar(
    r: &mut Reader,
    start: Position,
    literal: bool,
    parent: i128,
    Ghost(from): Ghost<int>,
) -> (res: Result<String, Error>)
    requires
        old(r).wf(),
        start == reader::position_at(old(r).text(), from),
        -1 <= parent <= usize::MAX,
    ensures
        final(r).wf(),
        final(r).text() == old(r).text(),
        final(r).at() >= old(r).at(),
        match block_scalar(old(r).text(), from, old(r).at(), literal, parent as int) {
            Ok(scalar) => res matches Ok(s) && s@ == scalar.0 && final(r).at() == scalar.1,
            Err(f) => res matches Err(e) && e@ == f.fault && final(r).at() == f.at,
        },
{
    proof {
        r.lemma_bounds();
        lemma_block_header(r.text(), from, r.at());
    }
    let (chomp, indicator) = scan_block_scalar_header(r, start, Ghost(from))?;
    let given: Option<i128> = match indicator {
        Some(n) => if parent < 0 {
            Some(n as i128)
        } else {
            Some(parent + 1 + n as i128)
        },
        None => None,
    };
    let lines = scan_block_lines(r, parent, given);
    let value = if literal {
        assemble_literal(&lines)
    } else {
        assemble_folded(&lines)
    };
    Ok(apply_chomping(value, chomp))
}

} // verus!
