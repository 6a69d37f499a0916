//! Single- and double-quoted scalars.

use crate::error::{Error, Position};
use crate::scanner::lex;
use crate::scanner::lex::{
    break_here, consume_line_break, marker_ahead, scan_error, skip_blank_lines, skip_run, Run,
    Stop,
};
use crate::scanner::reader;
use crate::scanner::reader::Reader;
use crate::text;
use crate::text::{hex_string, pop_trailing_blanks, string_of, value_of_digit};
use vstd::prelude::*;

verus! {

/// The text gathered so far and the place where scanning goes on, or a fault.
pub type Scanned = Result<(Seq<char>, int), Stop>;

/// The line that begins at `i` begins a document.
pub open spec fn document_marker_at(text: Seq<char>, i: int) -> bool {
    reader::position_at(text, i).column == 1 && lex::any_marker_at(text, i)
}

/// Folds the line break at `i` inside a quoted scalar: trailing blanks go, a
/// single break becomes a space, blank lines become newlines, and the leading
/// blanks of the next line go.
pub open spec fn quoted_fold(text: Seq<char>, start: int, i: int, gathered: Seq<char>) -> Scanned {
    let next = lex::blank_lines(text, lex::after_break(text, i));
    if document_marker_at(text, next.0) {
        Err(
            lex::stop(
                text,
                start,
                next.0,
                "a document marker may not appear inside a quoted scalar"@,
            ),
        )
    } else {
        Ok((text::trim_blanks(gathered) + lex::fold_text(next.1), next.0))
    }
}

/// The rest of a single-quoted scalar from `i`; a doubled quote is a quote.
pub open spec fn single_quoted(text: Seq<char>, start: int, i: int, gathered: Seq<char>) -> Scanned
    decreases text.len() - i,
{
    if !(0 <= i < text.len()) {
        Err(lex::stop(text, start, i, "unterminated single-quoted scalar"@))
    } else if text[i] == '\'' {
        if reader::char_at(text, i + 1) == Some('\'') {
            single_quoted(text, start, i + 2, gathered.push('\''))
        } else {
            Ok((gathered, i + 1))
        }
    } else if text::is_break(text[i]) {
        proof {
            lex::lemma_blank_lines(text, lex::after_break(text, i));
        }
        match quoted_fold(text, start, i, gathered) {
            Err(f) => Err(f),
            Ok(folded) => single_quoted(text, start, folded.1, folded.0),
        }
    } else {
        single_quoted(text, start, i + 1, gathered.push(text[i]))
    }
}

/// The character that a one-letter escape stands for.
pub open spec fn named_escape(c: char) -> Option<char> {
    match c {
        '0' => Some('\u{0}'),
        'a' => Some('\u{7}'),
        'b' => Some('\u{8}'),
        't' => Some('\u{9}'),
        '\t' => Some('\u{9}'),
        'n' => Some('\u{a}'),
        'v' => Some('\u{b}'),
        'f' => Some('\u{c}'),
        'r' => Some('\u{d}'),
        'e' => Some('\u{1b}'),
        ' ' => Some(' '),
        '"' => Some('"'),
        '/' => Some('/'),
        '\\' => Some('\\'),
        'N' => Some('\u{85}'),
        '_' => Some('\u{a0}'),
        'L' => Some('\u{2028}'),
        'P' => Some('\u{2029}'),
        _ => None,
    }
}

/// How many hex digits follow an escape letter.
pub open spec fn hex_escape_width(c: char) -> Option<nat> {
    match c {
        'x' => Some(2),
        'u' => Some(4),
        'U' => Some(8),
        _ => None,
    }
}

/// The character written by `n` more hex digits at `i`, after digits that made
/// `code`, and the place after them.
pub open spec fn hex_escape(text: Seq<char>, start: int, i: int, n: nat, code: nat) -> Result<
    (char, int),
    Stop,
>
    decreases n,
{
    if n == 0 {
        if text::is_scalar_value(code) {
            Ok((code as char, i))
        } else {
            Err(
                lex::stop(
                    text,
                    start,
                    i,
                    "escape resolves to invalid Unicode scalar U+"@ + text::hex_text(code, 4, true),
                ),
            )
        }
    } else {
        match reader::char_at(text, i) {
            None => Err(lex::stop(text, start, i, "invalid hex escape"@)),
            Some(c) => match text::digit_value(c) {
                None => Err(lex::stop(text, start, i + 1, "invalid hex escape"@)),
                Some(d) => hex_escape(text, start, i + 1, (n - 1) as nat, code * 16 + d),
            },
        }
    }
}

/// The character that the escape whose letter is at `i` stands for, and the
/// place after the escape.
pub open spec fn escape(text: Seq<char>, start: int, i: int) -> Result<(char, int), Stop> {
    match reader::char_at(text, i) {
        None => Err(lex::stop(text, start, i, "unterminated escape sequence"@)),
        Some(c) => match (named_escape(c), hex_escape_width(c)) {
            (Some(ch), _) => Ok((ch, i + 1)),
            (None, Some(n)) => hex_escape(text, start, i + 1, n, 0),
            (None, None) => Err(
                lex::stop(text, start, i + 1, "invalid escape sequence '\\"@.push(c).push('\'')),
            ),
        },
    }
}

/// The rest of a double-quoted scalar from `i`.
pub open spec fn double_quoted(text: Seq<char>, start: int, i: int, gathered: Seq<char>) -> Scanned
    decreases text.len() - i,
{
    if !(0 <= i < text.len()) {
        Err(lex::stop(text, start, i, "unterminated double-quoted scalar"@))
    } else if text[i] == '"' {
        Ok((gathered, i + 1))
    } else if text[i] == '\\' && lex::break_at(text, i + 1) {
        proof {
            lex::lemma_run_end(Run::Blanks, text, lex::after_break(text, i + 1));
        }
        double_quoted(
            text,
            start,
            lex::run_end(Run::Blanks, text, lex::after_break(text, i + 1)),
            gathered,
        )
    } else if text[i] == '\\' {
        proof {
            lemma_escape_end(text, start, i + 1);
        }
        match escape(text, start, i + 1) {
            Err(f) => Err(f),
            Ok(escaped) => double_quoted(text, start, escaped.1, gathered.push(escaped.0)),
        }
    } else if text::is_break(text[i]) {
        proof {
            lex::lemma_blank_lines(text, lex::after_break(text, i));
        }
        match quoted_fold(text, start, i, gathered) {
            Err(f) => Err(f),
            Ok(folded) => double_quoted(text, start, folded.1, folded.0),
        }
    } else {
        double_quoted(text, start, i + 1, gathered.push(text[i]))
    }
}

/// An escape ends after its letter.
pub proof fn lemma_escape_end(text: Seq<char>, start: int, i: int)
    requires
        0 <= i <= text.len(),
    ensures
        escape(text, start, i) matches Ok(e) ==> i < e.1 <= text.len(),
{
    match reader::char_at(text, i) {
        None => {},
        Some(c) => match (named_escape(c), hex_escape_width(c)) {
            (None, Some(n)) => lemma_hex_escape_end(text, start, i + 1, n, 0),
            _ => {},
        },
    }
}

proof fn lemma_hex_escape_end(text: Seq<char>, start: int, i: int, n: nat, code: nat)
    requires
        0 <= i <= text.len(),
    ensures
        hex_escape(text, start, i, n, code) matches Ok(e) ==> e.1 == i + n && e.1 <= text.len(),
    decreases n,
{
    if n > 0 {
        match reader::char_at(text, i) {
            None => {},
            Some(c) => match text::digit_value(c) {
                None => {},
                Some(d) => lemma_hex_escape_end(text, start, i + 1, (n - 1) as nat, code * 16 + d),
            },
        }
    }
}

/// A closed quoted scalar ends inside the text, past its opening quote.
pub proof fn lemma_quoted_end(text: Seq<char>, start: int, i: int, gathered: Seq<char>)
    requires
        0 <= i <= text.len(),
    ensures
        single_quoted(text, start, i, gathered) matches Ok(e) ==> i <= e.1 <= text.len(),
        double_quoted(text, start, i, gathered) matches Ok(e) ==> i <= e.1 <= text.len(),
    decreases text.len() - i,
{
    if i < text.len() {
        lex::lemma_blank_lines(text, lex::after_break(text, i));
        lex::lemma_run_end(Run::Blanks, text, lex::after_break(text, i + 1));
        lemma_escape_end(text, start, i + 1);
        lemma_quoted_end(text, start, i + 1, gathered.push(text[i]));
        if i + 1 < text.len() {
            lemma_quoted_end(text, start, i + 2, gathered.push('\''));
        }
        if text::is_break(text[i]) {
            let next = lex::blank_lines(text, lex::after_break(text, i));
            lemma_quoted_end(
                text,
                start,
                next.0,
                text::trim_blanks(gathered) + lex::fold_text(next.1),
            );
        }
        if lex::break_at(text, i + 1) {
            lemma_quoted_end(
                text,
                start,
                lex::run_end(Run::Blanks, text, lex::after_break(text, i + 1)),
                gathered,
            );
        }
        if let Ok(e) = escape(text, start, i + 1) {
            lemma_quoted_end(text, start, e.1, gathered.push(e.0));
        }
    }
}

/// Folds the line break at the cursor into `value`.
fn scan_quoted_fold(r: &mut Reader, start: Position, value: &mut Vec<char>) -> (res: Result<
    (),
    Error,
>)
    requires
        old(r).wf(),
    ensures
        final(r).wf(),
        final(r).text() == old(r).text(),
        final(r).at() >= old(r).at(),
        forall|s: int| #![trigger reader::position_at(old(r).text(), s)]
            start == reader::position_at(old(r).text(), s) ==> match quoted_fold(
                old(r).text(),
                s,
                old(r).at(),
                old(value)@,
            ) {
                Ok(folded) => res is Ok && final(value)@ == folded.0 && final(r).at() == folded.1,
                Err(f) => res matches Err(e) && e@ == f.fault && final(r).at() == f.at,
            },
{
    pop_trailing_blanks(value);
    consume_line_break(r);
    let blanks: usize = skip_blank_lines(r);
    if r.position().column == 1 && (marker_ahead(r, '-') || marker_ahead(r, '.')) {
        return Err(
            scan_error(r, start, "a document marker may not appear inside a quoted scalar"),
        );
    }
    if blanks == 0 {
        value.push(' ');
    } else {
        let mut i: usize = 0;
        while i < blanks
            invariant
                i <= blanks,
                value@ == text::trim_blanks(old(value)@) + text::repeated('\n', i as nat),
            decreases blanks - i,
        {
            value.push('\n');
            i += 1;
        }
    }
    assert(value@ == text::trim_blanks(old(value)@) + lex::fold_text(blanks as nat));
    Ok(())
}

/// Scans the rest of a single-quoted scalar; the opening quote is consumed and
/// lies at `start`.
pub(crate) fn scan_single_quoted(r: &mut Reader, start: Position, Ghost(from): Ghost<int>) -> (res: Result<
    String,
    Error,
>)
    requires
        old(r).wf(),
        start == reader::position_at(old(r).text(), from),
    ensures
        final(r).wf(),
        final(r).text() == old(r).text(),
        final(r).at() >= old(r).at(),
        match single_quoted(old(r).text(), from, old(r).at(), Seq::empty()) {
            Ok(scalar) => res matches Ok(s) && s@ == scalar.0 && final(r).at() == scalar.1,
            Err(f) => res matches Err(e) && e@ == f.fault && final(r).at() == f.at,
        },
{
    let ghost text = r.text();
    let ghost total = single_quoted(text, from, r.at(), Seq::empty());
    let mut value: Vec<char> = Vec::new();
    loop
        invariant
            r.wf(),
            r.at() >= old(r).at(),
            r.text() == text,
            start == reader::position_at(text, from),
            single_quoted(text, from, r.at(), value@) == total,
            total == single_quoted(old(r).text(), from, old(r).at(), Seq::empty()),
            text == old(r).text(),
        decreases text.len() - r.at(),
    {
        proof {
            r.lemma_bounds();
            lex::lemma_blank_lines(text, lex::after_break(text, r.at()));
        }
        match r.peek() {
            None => {
                return Err(scan_error(r, start, "unterminated single-quoted scalar"));
            },
            Some('\'') => {
                r.advance();
                if r.peek() == Some('\'') {
                    r.advance();
                    value.push('\'');
                } else {
                    return Ok(string_of(&value));
                }
            },
            Some(c) => {
                if break_here(r) {
                    scan_quoted_fold(r, start, &mut value)?;
                } else {
                    r.advance();
                    value.push(c);
                }
            },
        }
    }
}

/// How far hex digits can go when `n` of them are still to come and the whole
/// escape is at most eight digits long.
spec fn hex_room(n: nat) -> nat
    decreases n,
{
    if n == 0 {
        0x1_0000_0000
    } else {
        hex_room((n - 1) as nat) / 16
    }
}

/// Reads `n` hex digits and converts them to a character.
fn scan_hex_escape(r: &mut Reader, start: Position, n: usize, Ghost(from): Ghost<int>) -> (res:
    Result<char, Error>)
    requires
        old(r).wf(),
        start == reader::position_at(old(r).text(), from),
        n <= 8,
    ensures
        final(r).wf(),
        final(r).text() == old(r).text(),
        final(r).at() >= old(r).at(),
        match hex_escape(old(r).text(), from, old(r).at(), n as nat, 0) {
            Ok(escaped) => res == Ok::<char, Error>(escaped.0) && final(r).at() == escaped.1,
            Err(f) => res matches Err(e) && e@ == f.fault && final(r).at() == f.at,
        },
{
    let ghost text = r.text();
    let mut left: usize = n;
    let mut code: u32 = 0;
    proof {
        reveal_with_fuel(hex_room, 9);
    }
    while left > 0
        invariant
            r.wf(),
            r.at() >= old(r).at(),
            r.text() == text,
            text == old(r).text(),
            left <= n,
            n <= 8,
            code < hex_room(left as nat),
            hex_room(left as nat) <= 0x1_0000_0000,
            start == reader::position_at(text, from),
            hex_escape(text, from, r.at(), left as nat, code as nat) == hex_escape(
                text,
                from,
                old(r).at(),
                n as nat,
                0,
            ),
        decreases left,
    {
        proof {
            reveal_with_fuel(hex_room, 9);
            r.lemma_bounds();
        }
        match r.advance() {
            None => {
                return Err(scan_error(r, start, "invalid hex escape"));
            },
            Some(c) => match value_of_digit(c) {
                None => {
                    return Err(scan_error(r, start, "invalid hex escape"));
                },
                Some(d) => {
                    code = code * 16 + d;
                    left -= 1;
                },
            },
        }
    }
    match char::from_u32(code) {
        Some(ch) => Ok(ch),
        None => {
            let mut message = "escape resolves to invalid Unicode scalar U+".to_string();
            let digits = hex_string(code, 4, true);
            message.append(digits.as_str());
            Err(scan_error(r, start, message.as_str()))
        },
    }
}

/// Resolves an escape whose backslash is already consumed.
fn scan_escape(r: &mut Reader, start: Position, Ghost(from): Ghost<int>) -> (res: Result<
    char,
    Error,
>)
    requires
        old(r).wf(),
        start == reader::position_at(old(r).text(), from),
    ensures
        final(r).wf(),
        final(r).text() == old(r).text(),
        final(r).at() >= old(r).at(),
        match escape(old(r).text(), from, old(r).at()) {
            Ok(escaped) => res == Ok::<char, Error>(escaped.0) && final(r).at() == escaped.1,
            Err(f) => res matches Err(e) && e@ == f.fault && final(r).at() == f.at,
        },
{
    proof {
        r.lemma_bounds();
    }
    match r.advance() {
        None => Err(scan_error(r, start, "unterminated escape sequence")),
        Some(c) => {
            let ch = match c {
                '0' => '\u{0}',
                'a' => '\u{7}',
                'b' => '\u{8}',
                't' => '\u{9}',
                '\t' => '\u{9}',
                'n' => '\u{a}',
                'v' => '\u{b}',
                'f' => '\u{c}',
                'r' => '\u{d}',
                'e' => '\u{1b}',
                ' ' => ' ',
                '"' => '"',
                '/' => '/',
                '\\' => '\\',
                'N' => '\u{85}',
                '_' => '\u{a0}',
                'L' => '\u{2028}',
                'P' => '\u{2029}',
                'x' => {
                    return scan_hex_escape(r, start, 2, Ghost(from));
                },
                'u' => {
                    return scan_hex_escape(r, start, 4, Ghost(from));
                },
                'U' => {
                    return scan_hex_escape(r, start, 8, Ghost(from));
                },
                _ => {
                    let mut message = "invalid escape sequence '\\".to_string();
                    message.push(c);
                    message.push('\'');
                    return Err(scan_error(r, start, message.as_str()));
                },
            };
            Ok(ch)
        },
    }
}

/// Scans the rest of a double-quoted scalar; the opening quote is consumed and
/// lies at `start`.
pub(crate) fn scan_double_quoted(r: &mut Reader, start: Position, Ghost(from): Ghost<int>) -> (res: Result<
    String,
    Error,
>)
    requires
        old(r).wf(),
        start == reader::position_at(old(r).text(), from),
    ensures
        final(r).wf(),
        final(r).text() == old(r).text(),
        final(r).at() >= old(r).at(),
        match double_quoted(old(r).text(), from, old(r).at(), Seq::empty()) {
            Ok(scalar) => res matches Ok(s) && s@ == scalar.0 && final(r).at() == scalar.1,
            Err(f) => res matches Err(e) && e@ == f.fault && final(r).at() == f.at,
        },
{
    let ghost text = r.text();
    let ghost total = double_quoted(text, from, r.at(), Seq::empty());
    let mut value: Vec<char> = Vec::new();
    loop
        invariant
            r.wf(),
            r.at() >= old(r).at(),
            r.text() == text,
            start == reader::position_at(text, from),
            double_quoted(text, from, r.at(), value@) == total,
            total == double_quoted(old(r).text(), from, old(r).at(), Seq::empty()),
            text == old(r).text(),
        decreases text.len() - r.at(),
    {
        proof {
            r.lemma_bounds();
            lex::lemma_blank_lines(text, lex::after_break(text, r.at()));
            if r.at() < text.len() {
                lemma_escape_end(text, from, r.at() + 1);
            }
            lex::lemma_run_end(Run::Blanks, text, lex::after_break(text, r.at() + 1));
        }
        match r.peek() {
            None => {
                return Err(scan_error(r, start, "unterminated double-quoted scalar"));
            },
            Some('"') => {
                r.advance();
                return Ok(string_of(&value));
            },
            Some('\\') => {
                r.advance();
                if break_here(r) {
                    consume_line_break(r);
                    skip_run(r, Run::Blanks);
                } else {
                    let ch = scan_escape(r, start, Ghost(from))?;
                    value.push(ch);
                }
            },
            Some(c) => {
                if break_here(r) {
                    scan_quoted_fold(r, start, &mut value)?;
                } else {
                    r.advance();
                    value.push(c);
                }
            },
        }
    }
}

} // verus!
