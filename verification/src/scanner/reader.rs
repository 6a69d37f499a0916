//! A character cursor over the input with source-position tracking.

use crate::error::{Position, Span};
use crate::text::{chars_of, string_between};
use vstd::prelude::*;

verus! {

// ---------------------------------------------------------------------------
// Positions in a text
// ---------------------------------------------------------------------------

/// The character at index `i`, if there is one.
pub open spec fn char_at(text: Seq<char>, i: int) -> Option<char> {
    if 0 <= i < text.len() {
        Some(text[i])
    } else {
        None
    }
}

/// How many bytes UTF-8 spends on `c`.
pub open spec fn utf8_width(c: char) -> nat {
    if c <= '\u{7f}' {
        1
    } else if c <= '\u{7ff}' {
        2
    } else if c <= '\u{ffff}' {
        3
    } else {
        4
    }
}

/// How many bytes the first `i` characters take.
pub open spec fn byte_offset(text: Seq<char>, i: int) -> nat
    decreases i,
{
    if i <= 0 {
        0
    } else {
        byte_offset(text, i - 1) + utf8_width(text[i - 1])
    }
}

/// The character at `i` ends a line: `\n`, or a `\r` that no `\n` follows.
pub open spec fn ends_line(text: Seq<char>, i: int) -> bool {
    text[i] == '\n' || (text[i] == '\r' && char_at(text, i + 1) != Some('\n'))
}

/// The 1-based line of index `i`.
pub open spec fn line_at(text: Seq<char>, i: int) -> nat
    decreases i,
{
    if i <= 0 {
        1
    } else if ends_line(text, i - 1) {
        line_at(text, i - 1) + 1
    } else {
        line_at(text, i - 1)
    }
}

/// The 1-based column of index `i`. The `\r` of a `\r\n` pair has no width.
pub open spec fn column_at(text: Seq<char>, i: int) -> nat
    decreases i,
{
    if i <= 0 || ends_line(text, i - 1) {
        1
    } else if text[i - 1] == '\r' {
        column_at(text, i - 1)
    } else {
        column_at(text, i - 1) + 1
    }
}

/// `n`, or the largest machine number where `n` is beyond it.
pub open spec fn saturated(n: nat) -> usize {
    if n <= usize::MAX {
        n as usize
    } else {
        usize::MAX
    }
}

/// The source position of index `i`.
pub open spec fn position_at(text: Seq<char>, i: int) -> Position {
    Position {
        offset: byte_offset(text, i) as usize,
        line: saturated(line_at(text, i)),
        column: saturated(column_at(text, i)),
    }
}

/// A line, a column and a byte take at least one character.
pub proof fn lemma_counts(text: Seq<char>, i: int)
    requires
        0 <= i,
    ensures
        line_at(text, i) <= i + 1,
        column_at(text, i) <= i + 1,
        i <= byte_offset(text, i),
    decreases i,
{
    if i > 0 {
        lemma_counts(text, i - 1);
    }
}

/// The position of a place tells exactly how many bytes, lines and columns are before
/// it, in every text whose characters and bytes machine numbers can count with one to
/// spare for the first line.
pub proof fn law_positions_are_exact(text: Seq<char>, i: int)
    requires
        0 <= i <= text.len() < usize::MAX,
        byte_offset(text, text.len() as int) <= usize::MAX,
    ensures
        position_at(text, i).offset == byte_offset(text, i),
        position_at(text, i).line == line_at(text, i),
        position_at(text, i).column == column_at(text, i),
{
    lemma_counts(text, i);
    lemma_offset_monotone(text, i, text.len() as int);
}

/// Positions follow the text: the first line and column are 1, a line break of any kind
/// begins the next line, anything else takes one column, and every character takes as many
/// bytes as UTF-8 spends on it.
pub proof fn law_positions_follow_the_text(text: Seq<char>, i: int)
    requires
        0 <= i < text.len(),
    ensures
        line_at(text, 0) == 1,
        column_at(text, 0) == 1,
        byte_offset(text, 0) == 0,
        text[i] == '\n' ==> line_at(text, i + 1) == line_at(text, i) + 1 && column_at(text, i + 1)
            == 1,
        text[i] == '\r' && (i + 1 == text.len() || text[i + 1] != '\n') ==> line_at(text, i + 1)
            == line_at(text, i) + 1 && column_at(text, i + 1) == 1,
        text[i] == '\r' && i + 1 < text.len() && text[i + 1] == '\n' ==> line_at(text, i + 1)
            == line_at(text, i) && line_at(text, i + 2) == line_at(text, i) + 1 && column_at(
            text,
            i + 2,
        ) == 1,
        text[i] != '\n' && text[i] != '\r' ==> line_at(text, i + 1) == line_at(text, i)
            && column_at(text, i + 1) == column_at(text, i) + 1,
        ({
            let code = text[i] as int;
            let width = byte_offset(text, i + 1) - byte_offset(text, i);
            &&& code < 128 ==> width == 1
            &&& 128 <= code < 2048 ==> width == 2
            &&& 2048 <= code < 65536 ==> width == 3
            &&& 65536 <= code ==> width == 4
        }),
{
    reveal_with_fuel(line_at, 3);
}

/// The span from index `i` to index `j`.
pub open spec fn span_at(text: Seq<char>, i: int, j: int) -> Span {
    Span { start: position_at(text, i), end: position_at(text, j) }
}

/// The remaining text begins with `prefix`.
pub open spec fn prefix_at(text: Seq<char>, i: int, prefix: Seq<char>) -> bool {
    &&& 0 <= i
    &&& i + prefix.len() <= text.len()
    &&& text.subrange(i, i + prefix.len()) == prefix
}

proof fn lemma_width(c: char)
    ensures
        vstd::utf8::encode_scalar(c as u32).len() == utf8_width(c),
{
    vstd::utf8::char_is_scalar(c);
}

proof fn lemma_encoded_length(text: Seq<char>, rest: Seq<char>, i: int)
    requires
        0 <= i <= text.len(),
        rest == text.subrange(i, text.len() as int),
    ensures
        byte_offset(text, i) + vstd::utf8::encode_utf8(rest).len() == byte_offset(text, text.len() as int),
    decreases text.len() - i,
{
    if i < text.len() {
        let tail = rest.drop_first();
        assert(tail == text.subrange(i + 1, text.len() as int));
        lemma_encoded_length(text, tail, i + 1);
        let c = text[i];
        assert(rest[0] == c);
        lemma_width(c);
    }
}

/// The bytes before an index never outnumber those before a later one.
pub proof fn lemma_offset_monotone(text: Seq<char>, i: int, j: int)
    requires
        0 <= i <= j <= text.len(),
    ensures
        byte_offset(text, i) <= byte_offset(text, j),
        byte_offset(text, i) + (j - i) <= byte_offset(text, j),
    decreases j - i,
{
    if i < j {
        lemma_offset_monotone(text, i, j - 1);
    }
}

fn width_of(c: char) -> (n: usize)
    ensures
        n == utf8_width(c),
{
    if c <= '\u{7f}' {
        1
    } else if c <= '\u{7ff}' {
        2
    } else if c <= '\u{ffff}' {
        3
    } else {
        4
    }
}

// ---------------------------------------------------------------------------
// The cursor
// ---------------------------------------------------------------------------

/// A cursor over the characters of an input.
pub struct Reader {
    chars: Vec<char>,
    bytes: usize,
    index: usize,
    offset: usize,
    line: usize,
    column: usize,
}

impl Reader {
    /// The whole input.
    pub closed spec fn text(&self) -> Seq<char> {
        self.chars@
    }

    /// How many characters have been consumed.
    pub closed spec fn at(&self) -> int {
        self.index as int
    }

    /// The cursor lies inside the input and its counters agree with the text.
    pub closed spec fn wf(&self) -> bool {
        &&& self.index <= self.chars.len()
        &&& self.bytes == byte_offset(self.chars@, self.chars@.len() as int)
        &&& self.offset == byte_offset(self.chars@, self.index as int)
        &&& self.line == saturated(line_at(self.chars@, self.index as int))
        &&& self.column == saturated(column_at(self.chars@, self.index as int))
    }

    /// The cursor is inside the text.
    pub proof fn lemma_bounds(&self)
        requires
            self.wf(),
        ensures
            0 <= self.at() <= self.text().len(),
            self.text().len() <= usize::MAX,
    {
        assert(self.chars.len() == self.chars@.len());
    }

    pub fn new(input: &str) -> (r: Self)
        ensures
            r.wf(),
            r.text() == input@,
            r.at() == 0,
    {
        let chars = chars_of(input);
        let bytes: usize = input.as_bytes().len();
        proof {
            assert(input@.subrange(0, input@.len() as int) == input@);
            lemma_encoded_length(input@, input@, 0);
        }
        Self { chars, bytes, index: 0, offset: 0, line: 1, column: 1 }
    }

    /// Current source position.
    pub fn position(&self) -> (p: Position)
        requires
            self.wf(),
        ensures
            p == position_at(self.text(), self.at()),
    {
        Position::new(self.offset, self.line, self.column)
    }

    /// Total length of the input in bytes.
    pub fn input_len(&self) -> (n: usize)
        requires
            self.wf(),
        ensures
            n == byte_offset(self.text(), self.text().len() as int),
    {
        self.bytes
    }

    pub fn is_eof(&self) -> (b: bool)
        requires
            self.wf(),
        ensures
            b == (self.at() == self.text().len()),
    {
        self.index >= self.chars.len()
    }

    /// The next character without consuming it.
    pub fn peek(&self) -> (c: Option<char>)
        requires
            self.wf(),
        ensures
            c == char_at(self.text(), self.at()),
            c is Some <==> self.at() < self.text().len(),
    {
        self.peek_nth(0)
    }

    /// The character `n` positions ahead without consuming (0 == next).
    pub fn peek_nth(&self, n: usize) -> (c: Option<char>)
        requires
            self.wf(),
        ensures
            c == char_at(self.text(), self.at() + n),
    {
        if n < self.chars.len() - self.index {
            Some(self.chars[self.index + n])
        } else {
            None
        }
    }

    /// Whether the remaining input begins with `prefix`.
    pub fn starts_with(&self, prefix: &str) -> (b: bool)
        requires
            self.wf(),
        ensures
            b == prefix_at(self.text(), self.at(), prefix@),
    {
        let want = chars_of(prefix);
        if want.len() > self.chars.len() - self.index {
            return false;
        }
        let mut k: usize = 0;
        while k < want.len()
            invariant
                self.wf(),
                want@ == prefix@,
                k <= want@.len(),
                self.index + want.len() <= self.chars.len(),
                forall|j: int| 0 <= j < k ==> #[trigger] self.chars@[self.index + j] == want@[j],
            decreases want@.len() - k,
        {
            if self.chars[self.index + k] != want[k] {
                proof {
                    let part = self.text().subrange(self.at(), self.at() + prefix@.len());
                    assert(part[k as int] != prefix@[k as int]);
                }
                return false;
            }
            k += 1;
        }
        proof {
            let part = self.text().subrange(self.at(), self.at() + prefix@.len());
            assert forall|j: int| 0 <= j < prefix@.len() implies part[j] == prefix@[j] by {
                assert(self.chars@[self.index + j] == want@[j]);
            }
            assert(part == prefix@);
        }
        true
    }

    /// Consume and return the next character, updating offset/line/column.
    ///
    /// Recognizes YAML line breaks `\n`, `\r\n`, and lone `\r` for line
    /// counting; the offset always advances by the char's UTF-8 length.
    pub fn advance(&mut self) -> (c: Option<char>)
        requires
            old(self).wf(),
        ensures
            final(self).wf(),
            final(self).text() == old(self).text(),
            c == char_at(old(self).text(), old(self).at()),
            final(self).at() == if old(self).at() < old(self).text().len() {
                old(self).at() + 1
            } else {
                old(self).at()
            },
    {
        if self.index >= self.chars.len() {
            return None;
        }
        let c = self.chars[self.index];
        proof {
            lemma_offset_monotone(self.chars@, self.index + 1, self.chars@.len() as int);
        }
        self.offset = self.offset + width_of(c);
        self.index = self.index + 1;
        if c == '\n' {
            self.line = self.line.saturating_add(1);
            self.column = 1;
        } else if c == '\r' {
            if self.index >= self.chars.len() || self.chars[self.index] != '\n' {
                self.line = self.line.saturating_add(1);
                self.column = 1;
            }
        } else {
            self.column = self.column.saturating_add(1);
        }
        Some(c)
    }

    /// Moves the cursor back to an earlier place.
    pub fn reset(&mut self, mark: Mark)
        requires
            old(self).wf(),
            mark.marks(old(self).text()),
        ensures
            final(self).wf(),
            final(self).text() == old(self).text(),
            final(self).at() == mark.at(),
    {
        self.index = mark.index;
        self.offset = mark.offset;
        self.line = mark.line;
        self.column = mark.column;
    }

    /// A mark of the current place, for [`Reader::reset`].
    pub fn mark(&self) -> (m: Mark)
        requires
            self.wf(),
        ensures
            m.marks(self.text()),
            m.at() == self.at(),
    {
        Mark { index: self.index, offset: self.offset, line: self.line, column: self.column }
    }

    /// The consumed text between two indices.
    pub fn slice(&self, from: usize, to: usize) -> (s: String)
        requires
            self.wf(),
            from <= to <= self.text().len(),
        ensures
            s@ == self.text().subrange(from as int, to as int),
    {
        string_between(&self.chars, from, to)
    }

    /// The number of characters consumed so far.
    pub fn consumed(&self) -> (n: usize)
        requires
            self.wf(),
        ensures
            n == self.at(),
    {
        self.index
    }
}

/// A remembered place of a [`Reader`].
#[derive(Clone, Copy)]
pub struct Mark {
    index: usize,
    offset: usize,
    line: usize,
    column: usize,
}

impl Mark {
    /// The index it remembers.
    pub closed spec fn at(&self) -> int {
        self.index as int
    }

    /// It is a place of `text`.
    pub closed spec fn marks(&self, text: Seq<char>) -> bool {
        &&& self.index <= text.len()
        &&& self.offset == byte_offset(text, self.index as int)
        &&& self.line == saturated(line_at(text, self.index as int))
        &&& self.column == saturated(column_at(text, self.index as int))
    }
}

} // verus!
