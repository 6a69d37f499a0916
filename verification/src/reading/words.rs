//! Scalars in each of the one-line styles, from their parts.

use crate::meta::ScalarStyle;
use crate::resolution;
use crate::roundtrip::leaf;
use crate::scanner::lex;
use crate::scanner::lex::{Run, Stop};
use crate::scanner::plain;
use crate::scanner::plain::PlainScalar;
use crate::scanner::properties;
use crate::scanner::quoted;
use crate::scanner::reader;
use crate::scanner::token::Lexeme;
use crate::text;
use vstd::prelude::*;

verus! {

// ---------------------------------------------------------------------------
// Texts
// ---------------------------------------------------------------------------

/// A piece of a double-quoted scalar: a character as it is, an escape of one letter, or an
/// escape by the code of the character in hex digits.
pub enum Glyph {
    Char(char),
    Named(char),
    Coded(char, Seq<char>),
}

/// A scalar on one line.
pub enum Word {
    Plain(Seq<char>),
    Single(Seq<char>),
    Double(Seq<Glyph>),
}

/// What an escape of one letter stands for.
pub open spec fn named(c: char) -> Option<char> {
    if c == '0' {
        Some('\u{0}')
    } else if c == 'a' {
        Some('\u{7}')
    } else if c == 'b' {
        Some('\u{8}')
    } else if c == 't' || c == '\t' {
        Some('\u{9}')
    } else if c == 'n' {
        Some('\u{a}')
    } else if c == 'v' {
        Some('\u{b}')
    } else if c == 'f' {
        Some('\u{c}')
    } else if c == 'r' {
        Some('\u{d}')
    } else if c == 'e' {
        Some('\u{1b}')
    } else if c == ' ' || c == '"' || c == '/' || c == '\\' {
        Some(c)
    } else if c == 'N' {
        Some('\u{85}')
    } else if c == '_' {
        Some('\u{a0}')
    } else if c == 'L' {
        Some('\u{2028}')
    } else if c == 'P' {
        Some('\u{2029}')
    } else {
        None
    }
}

/// How many hex digits follow the letter of an escape by code.
pub open spec fn code_width(c: char) -> nat {
    if c == 'x' {
        2
    } else if c == 'u' {
        4
    } else if c == 'U' {
        8
    } else {
        0
    }
}

/// The number is the code of a character.
pub open spec fn is_code(n: int) -> bool {
    0 <= n <= 0xd7ff || 0xe000 <= n <= 0x10ffff
}

/// A piece that may stand between double quotes.
pub open spec fn is_glyph(g: Glyph) -> bool {
    match g {
        Glyph::Char(c) => c != '"' && c != '\\' && c != '\n' && c != '\r',
        Glyph::Named(c) => named(c) is Some,
        Glyph::Coded(c, ds) => {
            &&& code_width(c) > 0
            &&& ds.len() == code_width(c)
            &&& resolution::are_digits(ds, 16)
            &&& is_code(resolution::number(ds, 16))
        },
    }
}

/// A piece as it is written.
pub open spec fn glyph_text(g: Glyph) -> Seq<char> {
    match g {
        Glyph::Char(c) => seq![c],
        Glyph::Named(c) => seq!['\\', c],
        Glyph::Coded(c, ds) => seq!['\\', c] + ds,
    }
}

/// The character that a piece stands for.
pub open spec fn glyph_char(g: Glyph) -> char {
    match g {
        Glyph::Char(c) => c,
        Glyph::Named(c) => named(c)->Some_0,
        Glyph::Coded(_, ds) => resolution::number(ds, 16) as char,
    }
}

/// Pieces one after the other.
pub open spec fn glyphs_text(gs: Seq<Glyph>) -> Seq<char>
    decreases gs.len(),
{
    if gs.len() == 0 {
        Seq::empty()
    } else {
        glyphs_text(gs.drop_last()) + glyph_text(gs.last())
    }
}

/// The string with each single quote doubled.
pub open spec fn doubled(s: Seq<char>) -> Seq<char>
    decreases s.len(),
{
    if s.len() == 0 {
        Seq::empty()
    } else if s.last() == '\'' {
        doubled(s.drop_last()) + seq!['\'', '\'']
    } else {
        doubled(s.drop_last()).push(s.last())
    }
}

/// No line break is in the text.
pub open spec fn is_line(s: Seq<char>) -> bool {
    forall|i: int| 0 <= i < s.len() ==> #[trigger] s[i] != '\n' && s[i] != '\r'
}

/// A character that a plain scalar does not begin with.
pub open spec fn is_indicator(c: char) -> bool {
    c == '#' || c == '&' || c == '*' || c == '!' || c == '|' || c == '>' || c == '\'' || c == '"'
        || c == '%' || c == '@' || c == '`'
}

/// A space or a tab.
pub open spec fn is_white(c: char) -> bool {
    c == ' ' || c == '\t'
}

/// Three dashes or three dots, alone or before a blank.
pub open spec fn is_marker(s: Seq<char>) -> bool {
    &&& s.len() >= 3
    &&& s[0] == '-' && s[1] == '-' && s[2] == '-' || s[0] == '.' && s[1] == '.' && s[2] == '.'
    &&& s.len() == 3 || is_white(s[3])
}

/// A text that is a plain scalar outside flow collections.
pub open spec fn is_plain(s: Seq<char>) -> bool {
    &&& s.len() > 0
    &&& is_line(s)
    &&& forall|i: int|
        0 <= i < s.len() ==> #[trigger] s[i] != ',' && s[i] != '[' && s[i] != ']' && s[i] != '{'
            && s[i] != '}'
    &&& forall|i: int|
        0 <= i < s.len() && #[trigger] s[i] == ':' ==> i + 1 < s.len() && !is_white(s[i + 1])
    &&& forall|i: int| 0 <= i < s.len() - 1 && #[trigger] s[i] == ' ' ==> s[i + 1] != '#'
    &&& !is_white(s[0])
    &&& !is_white(s[s.len() - 1])
    &&& !is_indicator(s[0])
    &&& s[0] == '-' || s[0] == '?' ==> s.len() > 1 && !is_white(s[1])
    &&& !is_marker(s)
}

/// A scalar that is written as it should be.
pub open spec fn is_word(w: Word) -> bool {
    match w {
        Word::Plain(s) => is_plain(s),
        Word::Single(s) => is_line(s),
        Word::Double(gs) => forall|i: int| 0 <= i < gs.len() ==> is_glyph(#[trigger] gs[i]),
    }
}

/// A scalar as it is written.
pub open spec fn word_text(w: Word) -> Seq<char> {
    match w {
        Word::Plain(s) => s,
        Word::Single(s) => seq!['\''] + doubled(s) + seq!['\''],
        Word::Double(gs) => seq!['"'] + glyphs_text(gs) + seq!['"'],
    }
}

/// The string that a scalar is.
pub open spec fn word_value(w: Word) -> Seq<char> {
    match w {
        Word::Plain(s) => s,
        Word::Single(s) => s,
        Word::Double(gs) => Seq::new(gs.len(), |i: int| glyph_char(gs[i])),
    }
}

/// The style that a scalar has.
pub open spec fn word_style(w: Word) -> ScalarStyle {
    match w {
        Word::Plain(_) => ScalarStyle::Plain,
        Word::Single(_) => ScalarStyle::SingleQuoted,
        Word::Double(_) => ScalarStyle::DoubleQuoted,
    }
}

/// The token of a scalar.
pub open spec fn word_lexeme(w: Word) -> Lexeme {
    Lexeme::Scalar { value: word_value(w), style: word_style(w) }
}

// ---------------------------------------------------------------------------
// Single quotes
// ---------------------------------------------------------------------------

/// Characters between single quotes are gathered.
pub proof fn lemma_single_prefix(
    text: Seq<char>,
    start: int,
    i: int,
    s: Seq<char>,
    k: int,
    had: Seq<char>,
)
    requires
        0 <= k <= s.len(),
        is_line(s),
        leaf::holds(text, i, doubled(s.take(k))),
    ensures
        quoted::single_quoted(text, start, i, had) == quoted::single_quoted(
            text,
            start,
            i + doubled(s.take(k)).len(),
            had + s.take(k),
        ),
    decreases k,
{
    if k == 0 {
        assert(s.take(0) == Seq::<char>::empty());
        assert(had + s.take(0) == had);
    } else {
        let part = s.take(k);
        assert(part.drop_last() == s.take(k - 1));
        assert(part.last() == s[k - 1]);
        let before = doubled(s.take(k - 1));
        let c = s[k - 1];
        let last = if c == '\'' {
            seq!['\'', '\'']
        } else {
            seq![c]
        };
        assert(doubled(part) == before + last);
        leaf::lemma_holds(text, i, before, last);
        lemma_single_prefix(text, start, i, s, k - 1, had);
        let p = i + before.len();
        assert(text[p + 0] == last[0]);
        if c == '\'' {
            assert(text[p + 1] == last[1]);
        }
        assert((had + s.take(k - 1)).push(c) == had + s.take(k));
    }
}

/// A single-quoted string is read back, whatever it holds on its line.
pub proof fn lemma_single(text: Seq<char>, i: int, s: Seq<char>)
    requires
        is_line(s),
        leaf::holds(text, i, word_text(Word::Single(s))),
        reader::char_at(text, i + word_text(Word::Single(s)).len()) != Some('\''),
    ensures
        quoted::single_quoted(text, i, i + 1, Seq::empty()) == Ok::<(Seq<char>, int), Stop>(
            (s, i + word_text(Word::Single(s)).len()),
        ),
{
    let body = doubled(s);
    assert(word_text(Word::Single(s)) == seq!['\''] + (body + seq!['\'']));
    leaf::lemma_holds(text, i, seq!['\''], body + seq!['\'']);
    leaf::lemma_holds(text, i + 1, body, seq!['\'']);
    assert(s.take(s.len() as int) == s);
    lemma_single_prefix(text, i, i + 1, s, s.len() as int, Seq::empty());
    assert(Seq::<char>::empty() + s == s);
    assert(text[i + 1 + body.len() + 0] == seq!['\''][0]);
}

// ---------------------------------------------------------------------------
// Double quotes
// ---------------------------------------------------------------------------

/// Hex digits are read as the number they write.
proof fn lemma_coded(text: Seq<char>, start: int, i: int, ds: Seq<char>, k: int)
    requires
        0 <= k <= ds.len() <= 8,
        resolution::are_digits(ds, 16),
        leaf::holds(text, i, ds),
        is_code(resolution::number(ds, 16)),
        0 <= resolution::number(ds.take(k), 16),
    ensures
        quoted::hex_escape(
            text,
            start,
            i + k,
            (ds.len() - k) as nat,
            resolution::number(ds.take(k), 16) as nat,
        ) == Ok::<(char, int), Stop>((resolution::number(ds, 16) as char, i + ds.len())),
    decreases ds.len() - k,
{
    let n = resolution::number(ds.take(k), 16);
    if k == ds.len() {
        assert(ds.take(k) == ds);
    } else {
        assert(text[i + k] == ds[k]);
        assert(resolution::symbol(ds[k]) < 16);
        assert(ds.take(k + 1).drop_last() == ds.take(k));
        assert(ds.take(k + 1).last() == ds[k]);
        assert(text::digit_value(ds[k]) == Some(resolution::symbol(ds[k]) as nat));
        assert(resolution::number(ds.take(k + 1), 16) == n * 16 + resolution::symbol(ds[k]));
        lemma_coded(text, start, i, ds, k + 1);
    }
}

proof fn lemma_glyph(text: Seq<char>, start: int, i: int, g: Glyph, gathered: Seq<char>)
    requires
        is_glyph(g),
        leaf::holds(text, i, glyph_text(g)),
    ensures
        quoted::double_quoted(text, start, i, gathered) == quoted::double_quoted(
            text,
            start,
            i + glyph_text(g).len(),
            gathered.push(glyph_char(g)),
        ),
{
    let t = glyph_text(g);
    assert(text[i + 0] == t[0]);
    match g {
        Glyph::Char(_) => {},
        Glyph::Named(c) => {
            assert(text[i + 1] == t[1]);
            assert(quoted::escape(text, start, i + 1) == Ok::<(char, int), Stop>(
                (named(c)->Some_0, i + 2),
            ));
        },
        Glyph::Coded(c, ds) => {
            assert(text[i + 1] == t[1]);
            leaf::lemma_holds(text, i, seq!['\\', c], ds);
            assert(ds.take(0) == Seq::<char>::empty());
            assert(resolution::number(ds.take(0), 16) == 0);
            lemma_coded(text, start, i + 2, ds, 0);
            assert(quoted::escape(text, start, i + 1) == Ok::<(char, int), Stop>(
                (glyph_char(g), i + 2 + ds.len()),
            ));
        },
    }
}

/// Pieces between double quotes are gathered.
pub proof fn lemma_double_prefix(
    text: Seq<char>,
    start: int,
    i: int,
    gs: Seq<Glyph>,
    k: int,
    first: Seq<char>,
)
    requires
        0 <= k <= gs.len(),
        forall|j: int| 0 <= j < gs.len() ==> is_glyph(#[trigger] gs[j]),
        leaf::holds(text, i, glyphs_text(gs.take(k))),
    ensures
        quoted::double_quoted(text, start, i, first) == quoted::double_quoted(
            text,
            start,
            i + glyphs_text(gs.take(k)).len(),
            first + word_value(Word::Double(gs.take(k))),
        ),
    decreases k,
{
    if k == 0 {
        assert(gs.take(0) == Seq::<Glyph>::empty());
        assert(first + word_value(Word::Double(gs.take(0))) == first);
    } else {
        let part = gs.take(k);
        assert(part.drop_last() == gs.take(k - 1));
        assert(part.last() == gs[k - 1]);
        let before = glyphs_text(gs.take(k - 1));
        leaf::lemma_holds(text, i, before, glyph_text(gs[k - 1]));
        lemma_double_prefix(text, start, i, gs, k - 1, first);
        let had = first + word_value(Word::Double(gs.take(k - 1)));
        lemma_glyph(text, start, i + before.len(), gs[k - 1], had);
        assert(had.push(glyph_char(gs[k - 1])) == first + word_value(Word::Double(part)));
    }
}

/// A double-quoted string is read back, with every escape.
pub proof fn lemma_double(text: Seq<char>, i: int, gs: Seq<Glyph>)
    requires
        is_word(Word::Double(gs)),
        leaf::holds(text, i, word_text(Word::Double(gs))),
    ensures
        quoted::double_quoted(text, i, i + 1, Seq::empty()) == Ok::<(Seq<char>, int), Stop>(
            (word_value(Word::Double(gs)), i + word_text(Word::Double(gs)).len()),
        ),
{
    let body = glyphs_text(gs);
    assert(word_text(Word::Double(gs)) == seq!['"'] + (body + seq!['"']));
    leaf::lemma_holds(text, i, seq!['"'], body + seq!['"']);
    leaf::lemma_holds(text, i + 1, body, seq!['"']);
    assert(gs.take(gs.len() as int) == gs);
    lemma_double_prefix(text, i, i + 1, gs, gs.len() as int, Seq::empty());
    let value = word_value(Word::Double(gs));
    assert(Seq::<char>::empty() + value == value);
    assert(text[i + 1 + body.len() + 0] == seq!['"'][0]);
}

// ---------------------------------------------------------------------------
// Plain scalars
// ---------------------------------------------------------------------------

/// A token begins at `i`.
pub open spec fn token_starts(text: Seq<char>, i: int) -> bool {
    0 <= i < text.len() && !is_white(text[i]) && text[i] != '\n' && text[i] != '\r' && text[i]
        != '#'
}

/// What may follow a scalar outside flow collections: a colon and then a space or the end
/// of the line, a space and then a comment, the end of the text, or the end of the line
/// where the next line with content is a comment, a marker or no deeper than `indent`.
pub open spec fn ends_word(text: Seq<char>, e: int, indent: int) -> bool {
    ||| e == text.len()
    ||| 0 <= e && e + 1 < text.len() && text[e] == ':' && (text[e + 1] == ' ' || text[e + 1] == '\n')
    ||| 0 <= e && e + 1 < text.len() && text[e] == ' ' && text[e + 1] == '#'
    ||| {
        let p = lex::blank_lines(text, e + 1).0;
        &&& 0 <= e < text.len()
        &&& text[e] == '\n'
        &&& p == text.len() || text[p] == '#' || lex::indent_at(text, p) <= indent
            || lex::any_marker_at(text, p)
    }
}

proof fn lemma_inside_plain(text: Seq<char>, i: int, s: Seq<char>, k: int)
    requires
        leaf::holds(text, i, s),
        is_plain(s),
        0 <= k < s.len(),
    ensures
        !plain::plain_stop(text, i + k),
{
    assert(text[i + k] == s[k]);
    if k + 1 < s.len() {
        assert(text[i + (k + 1)] == s[k + 1]);
        assert(s[k + 1] != ',' && s[k + 1] != '\n');
    }
}

/// A plain scalar is read whole.
pub proof fn lemma_plain(text: Seq<char>, i: int, s: Seq<char>, indent: int)
    requires
        leaf::holds(text, i, s),
        is_plain(s),
        ends_word(text, i + s.len(), indent),
    ensures
        plain::plain_scalar(text, i, false, indent) == (PlainScalar {
            value: s,
            end: i + s.len(),
            content_end: i + s.len(),
        }),
        !plain::plain_stop(text, i),
{
    let e = i + s.len();
    assert forall|j: int| i <= j < e implies !plain::plain_stop(text, j) by {
        lemma_inside_plain(text, i, s, j - i);
        assert(i + (j - i) == j);
    }
    assert(plain::plain_stop(text, e));
    plain::lemma_plain_line_is(text, i, e);
    assert(text.subrange(i, e) == s) by {
        assert forall|k: int| 0 <= k < s.len() implies text.subrange(i, e)[k] == s[k] by {
            assert(text[i + k] == s[k]);
        }
    }
    assert(s[s.len() - 1] != ',');
    assert(text::trim_blanks(s) == s);
    assert(text[i + 0] == s[0]);
    if lex::break_at(text, e) {
        let p = lex::blank_lines(text, e + 1).0;
        assert(lex::after_break(text, e) == e + 1);
        lex::lemma_blank_lines(text, e + 1);
        assert(!plain::continues_plain(text, p, false, indent));
    }
}

// ---------------------------------------------------------------------------
// Names and tags
// ---------------------------------------------------------------------------

/// White space.
pub open spec fn is_space(c: char) -> bool {
    ||| c == '\t' || c == '\n' || c == '\u{b}' || c == '\u{c}' || c == '\r' || c == ' '
    ||| c == '\u{85}' || c == '\u{a0}' || c == '\u{1680}'
    ||| '\u{2000}' <= c && c <= '\u{200a}'
    ||| c == '\u{2028}' || c == '\u{2029}' || c == '\u{202f}' || c == '\u{205f}' || c == '\u{3000}'
}

/// A text that an anchor, an alias or a tag can hold: no white space, no flow indicator,
/// and a colon only inside.
pub open spec fn is_name(s: Seq<char>) -> bool {
    &&& forall|i: int|
        0 <= i < s.len() ==> !is_space(#[trigger] s[i]) && s[i] != ',' && s[i] != '[' && s[i] != ']'
            && s[i] != '{' && s[i] != '}'
    &&& s.len() > 0 ==> s[s.len() - 1] != ':'
}

/// A name without `!`.
pub open spec fn is_tag_name(s: Seq<char>) -> bool {
    is_name(s) && forall|i: int| 0 <= i < s.len() ==> #[trigger] s[i] != '!'
}

/// The URI of a verbatim tag.
pub open spec fn is_uri(s: Seq<char>) -> bool {
    s.len() > 0 && forall|i: int| 0 <= i < s.len() ==> !is_space(#[trigger] s[i]) && s[i] != '>'
}

/// What one token of a node is written as: a property, an alias or a scalar.
pub enum Piece {
    Anchor(Seq<char>),
    Alias(Seq<char>),
    /// `!<uri>`
    Verbatim(Seq<char>),
    /// `!!name`
    Standard(Seq<char>),
    /// `!name`
    Local(Seq<char>),
    Word(Word),
}

pub open spec fn is_piece(p: Piece) -> bool {
    match p {
        Piece::Anchor(name) => name.len() > 0 && is_name(name),
        Piece::Alias(name) => name.len() > 0 && is_name(name),
        Piece::Verbatim(uri) => is_uri(uri),
        Piece::Standard(name) => is_tag_name(name),
        Piece::Local(name) => is_tag_name(name) && (name.len() > 0 ==> name[0] != '<'),
        Piece::Word(w) => is_word(w),
    }
}

pub open spec fn piece_text(p: Piece) -> Seq<char> {
    match p {
        Piece::Anchor(name) => seq!['&'] + name,
        Piece::Alias(name) => seq!['*'] + name,
        Piece::Verbatim(uri) => seq!['!', '<'] + uri + seq!['>'],
        Piece::Standard(name) => seq!['!', '!'] + name,
        Piece::Local(name) => seq!['!'] + name,
        Piece::Word(w) => word_text(w),
    }
}

/// The tag that `!!` stands for, before the name.
pub open spec fn standard_prefix() -> Seq<char> {
    seq!['t', 'a', 'g', ':', 'y', 'a', 'm', 'l', '.', 'o', 'r', 'g', ',', '2', '0', '0', '2', ':']
}

pub open spec fn piece_lexeme(p: Piece) -> Lexeme {
    match p {
        Piece::Anchor(name) => Lexeme::Anchor(name),
        Piece::Alias(name) => Lexeme::Alias(name),
        Piece::Verbatim(uri) => Lexeme::Tag(uri),
        Piece::Standard(name) => Lexeme::Tag(standard_prefix() + name),
        Piece::Local(name) => Lexeme::Tag(seq!['!'] + name),
        Piece::Word(w) => word_lexeme(w),
    }
}

/// A run is the name and nothing more.
pub proof fn lemma_name_run(text: Seq<char>, i: int, name: Seq<char>, run: Run)
    requires
        run == Run::Name && is_name(name) || run == Run::TagWord && is_tag_name(name) || run
            == Run::Uri && is_uri(name),
        leaf::holds(text, i, name),
        ({
            let e = i + name.len();
            ||| e == text.len()
            ||| text[e] == ' ' || text[e] == '\n'
            ||| e + 1 < text.len() && text[e] == ':' && (text[e + 1] == ' ' || text[e + 1] == '\n')
                && run != Run::Uri
            ||| text[e] == '!' && run == Run::TagWord
            ||| text[e] == '>' && run == Run::Uri
        }),
    ensures
        lex::run_end(run, text, i) == i + name.len(),
        text.subrange(i, i + name.len()) == name,
{
    let e = i + name.len();
    assert forall|j: int| i <= j < e implies lex::in_run(run, text, j) by {
        assert(text[i + (j - i)] == name[j - i]);
        if j + 1 < e {
            assert(text[i + (j - i + 1)] == name[j - i + 1]);
            assert(!is_space(name[j - i + 1]));
        }
    }
    lex::lemma_run_is(run, text, i, e);
    assert(text.subrange(i, e) == name) by {
        assert forall|k: int| 0 <= k < name.len() implies text.subrange(i, e)[k] == name[k] by {
            assert(text[i + k] == name[k]);
        }
    }
}

/// What follows a property or an alias.
pub open spec fn ends_name(text: Seq<char>, e: int) -> bool {
    ||| e == text.len()
    ||| 0 <= e < text.len() && (text[e] == ' ' || text[e] == '\n')
    ||| 0 <= e && e + 1 < text.len() && text[e] == ':' && (text[e + 1] == ' ' || text[e + 1] == '\n')
}

/// An anchor or an alias is read with its name.
pub proof fn lemma_name(text: Seq<char>, i: int, name: Seq<char>, anchor: bool)
    requires
        name.len() > 0,
        is_name(name),
        0 <= i < text.len(),
        leaf::holds(text, i + 1, name),
        ends_name(text, i + 1 + name.len()),
    ensures
        properties::node_name(text, i, anchor) == Ok::<(Seq<char>, int), Stop>(
            (name, i + 1 + name.len()),
        ),
{
    lemma_name_run(text, i + 1, name, Run::Name);
}

/// The default handles.
pub proof fn lemma_handles()
    ensures
        properties::default_handles().contains_key(seq!['!']),
        properties::default_handles()[seq!['!']] == seq!['!'],
        properties::default_handles().contains_key(seq!['!', '!']),
        properties::default_handles()[seq!['!', '!']] == standard_prefix(),
        "!"@ == seq!['!'],
{
    reveal_strlit("!");
    reveal_strlit("!!");
    reveal_strlit("tag:yaml.org,2002:");
    assert("!"@ == seq!['!']);
    assert("!!"@ == seq!['!', '!']);
    assert("tag:yaml.org,2002:"@ == standard_prefix());
    assert(seq!['!'].len() != seq!['!', '!'].len());
}

/// A verbatim tag is its URI, whatever follows it.
pub proof fn lemma_verbatim(text: Seq<char>, i: int, uri: Seq<char>)
    requires
        is_uri(uri),
        leaf::holds(text, i, piece_text(Piece::Verbatim(uri))),
    ensures
        properties::tag(text, i, properties::default_handles()) == Ok::<(Seq<char>, int), Stop>(
            (uri, i + piece_text(Piece::Verbatim(uri)).len()),
        ),
{
    let t = piece_text(Piece::Verbatim(uri));
    assert(text[i + 1] == t[1]);
    assert(t == seq!['!', '<'] + (uri + seq!['>']));
    leaf::lemma_holds(text, i, seq!['!', '<'], uri + seq!['>']);
    leaf::lemma_holds(text, i + 2, uri, seq!['>']);
    assert(text[i + 2 + uri.len() + 0] == seq!['>'][0]);
    lemma_name_run(text, i + 2, uri, Run::Uri);
}

/// A tag is read as what it stands for under the default handles.
pub proof fn lemma_tag(text: Seq<char>, i: int, p: Piece)
    requires
        is_piece(p),
        p is Verbatim || p is Standard || p is Local,
        leaf::holds(text, i, piece_text(p)),
        ends_name(text, i + piece_text(p).len()),
    ensures
        text[i] == '!',
        properties::tag(text, i, properties::default_handles()) matches Ok((tag, end))
            && piece_lexeme(p) == Lexeme::Tag(tag) && end == i + piece_text(p).len(),
{
    let t = piece_text(p);
    lemma_handles();
    assert(text[i + 0] == t[0]);
    if t.len() > 1 {
        assert(text[i + 1] == t[1]);
    }
    match p {
        Piece::Verbatim(uri) => {
            lemma_verbatim(text, i, uri);
        },
        Piece::Standard(name) => {
            leaf::lemma_holds(text, i, seq!['!', '!'], name);
            lemma_name_run(text, i + 1, Seq::empty(), Run::TagWord);
            lemma_name_run(text, i + 2, name, Run::TagWord);
            assert(seq!['!'] + Seq::<char>::empty() + seq!['!'] == seq!['!', '!']);
        },
        Piece::Local(name) => {
            leaf::lemma_holds(text, i, seq!['!'], name);
            lemma_name_run(text, i + 1, name, Run::TagWord);
            if name.len() == 0 && i + 1 < text.len() {
                assert(text[i + 1] != '<' && text[i + 1] != '!');
            }
        },
        _ => {},
    }
}

} // verus!
