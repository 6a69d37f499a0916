//! Inside flow collections: what may stand between tokens, and the tokens.

use crate::options::Limits;
use crate::reading::steps;
use crate::reading::words;
use crate::reading::words::{Piece, Word};
use crate::roundtrip::leaf;
use crate::roundtrip::scan;
use crate::scanner::lex;
use crate::scanner::lex::Run;
use crate::scanner::model;
use crate::scanner::model::{Failure, Gap, Produced, ScanState};
use crate::scanner::plain;
use crate::scanner::plain::PlainScalar;
use crate::scanner::properties;
use crate::scanner::reader;
use crate::scanner::token::Lexeme;
use crate::text;
use vstd::prelude::*;

verus! {

// ---------------------------------------------------------------------------
// Gaps
// ---------------------------------------------------------------------------

/// A bit of what may stand between two tokens.
pub enum Bit {
    Space,
    Tab,
    Break,
    /// A comment, up to the end of its line.
    Note(Seq<char>),
}

pub open spec fn bit_text(b: Bit) -> Seq<char> {
    match b {
        Bit::Space => seq![' '],
        Bit::Tab => seq!['\t'],
        Bit::Break => seq!['\n'],
        Bit::Note(c) => seq!['#'] + c,
    }
}

/// Bits from bit `k` on. A comment has something before it and a line break behind it.
pub open spec fn are_bits(bits: Seq<Bit>) -> bool {
    forall|k: int|
        0 <= k < bits.len() ==> {
            (#[trigger] bits[k]) matches Bit::Note(c) ==> words::is_line(c) && k > 0 && !(bits[k - 1]
                is Note) && k + 1 < bits.len() && bits[k + 1] is Break
        }
}

pub open spec fn bits_text(bits: Seq<Bit>, k: int) -> Seq<char>
    decreases bits.len() - k,
{
    if 0 <= k < bits.len() {
        bit_text(bits[k]) + bits_text(bits, k + 1)
    } else {
        Seq::empty()
    }
}

/// Between the tokens of a flow collection everything is skipped.
proof fn lemma_bits(text: Seq<char>, g: Gap, bits: Seq<Bit>, k: int) -> (out: Gap)
    requires
        are_bits(bits),
        0 <= k <= bits.len(),
        k > 0 && !(bits[k - 1] is Note) ==> g.separated,
        leaf::holds(text, g.pos, bits_text(bits, k)),
        ({
            let e = g.pos + bits_text(bits, k).len();
            words::token_starts(text, e)
        }),
    ensures
        model::skip_gap(text, false, g) == Ok::<Gap, lex::Stop>(out),
        out.pos == g.pos + bits_text(bits, k).len(),
        out.key_allowed == g.key_allowed,
        !g.tab_in_indent ==> !out.tab_in_indent,
    decreases bits.len() - k,
{
    if k == bits.len() {
        Gap { at_line_start: false, ..g }
    } else {
        let b = bits[k];
        let rest = bits_text(bits, k + 1);
        leaf::lemma_holds(text, g.pos, bit_text(b), rest);
        assert(text[g.pos + 0] == bit_text(b)[0]);
        match b {
            Bit::Space => {
                lemma_bits(text, Gap { pos: g.pos + 1, separated: true, ..g }, bits, k + 1)
            },
            Bit::Tab => {
                lemma_bits(text, Gap { pos: g.pos + 1, separated: true, ..g }, bits, k + 1)
            },
            Bit::Break => {
                let next = Gap {
                    pos: g.pos + 1,
                    separated: true,
                    key_allowed: g.key_allowed,
                    at_line_start: true,
                    tab_in_indent: false,
                };
                lemma_bits(text, next, bits, k + 1)
            },
            Bit::Note(c) => {
                let t = bit_text(b);
                let e = g.pos + t.len();
                assert(bits[k + 1] is Break);
                leaf::lemma_holds(text, e, bit_text(bits[k + 1]), bits_text(bits, k + 2));
                assert(text[e + 0] == bit_text(bits[k + 1])[0]);
                assert forall|j: int| g.pos <= j < e implies lex::in_run(Run::Line, text, j) by {
                    assert(text[g.pos + (j - g.pos)] == t[j - g.pos]);
                    if j > g.pos {
                        assert(t[j - g.pos] == c[j - g.pos - 1]);
                    }
                }
                lex::lemma_run_is(Run::Line, text, g.pos, e);
                lemma_bits(text, Gap { pos: e, ..g }, bits, k + 1)
            },
        }
    }
}

// ---------------------------------------------------------------------------
// Tokens
// ---------------------------------------------------------------------------

/// The scanner stands inside a flow collection.
pub open spec fn is_inside(text: Seq<char>, st: ScanState) -> bool {
    &&& model::inside(text, st)
    &&& st.started
    &&& !st.ended
    &&& st.flow_depth > 0
    &&& st.doc_open
}

/// An indicator of a flow collection, and its token.
pub open spec fn sign(c: char) -> Option<Lexeme> {
    if c == '[' {
        Some(Lexeme::FlowSequenceStart)
    } else if c == ']' {
        Some(Lexeme::FlowSequenceEnd)
    } else if c == '{' {
        Some(Lexeme::FlowMappingStart)
    } else if c == '}' {
        Some(Lexeme::FlowMappingEnd)
    } else if c == ',' {
        Some(Lexeme::FlowEntry)
    } else if c == ':' {
        Some(Lexeme::Value)
    } else {
        None
    }
}

/// How many flow collections are open behind an indicator.
pub open spec fn depth_after(c: char, depth: nat) -> int {
    if c == '[' || c == '{' {
        depth as int + 1
    } else if c == ']' || c == '}' {
        depth as int - 1
    } else {
        depth as int
    }
}

proof fn lemma_flow_gap(text: Seq<char>, st: ScanState, bits: Seq<Bit>) -> (at: ScanState)
    requires
        is_inside(text, st),
        are_bits(bits),
        leaf::holds(text, st.pos, bits_text(bits, 0)),
        words::token_starts(text, st.pos + bits_text(bits, 0).len()),
    ensures
        model::after_gap(text, st) == Ok::<ScanState, Failure>(at),
        at.pos == st.pos + bits_text(bits, 0).len(),
        at == (ScanState {
            pos: at.pos,
            key_allowed: st.key_allowed,
            at_line_start: at.at_line_start,
            tab_in_indent: at.tab_in_indent,
            key: at.key,
            ..st
        }),
{
    let before = Gap {
        pos: st.pos,
        separated: reader::position_at(text, st.pos).column == 1,
        key_allowed: st.key_allowed,
        at_line_start: st.at_line_start,
        tab_in_indent: st.tab_in_indent,
    };
    let g = lemma_bits(text, before, bits, 0);
    model::after_gap(text, st)->Ok_0
}

/// A step from a produced token.
proof fn lemma_step(
    text: Seq<char>,
    limits: Limits,
    st: ScanState,
    at: ScanState,
    p: Produced,
) -> (next: ScanState)
    requires
        is_inside(text, st),
        is_inside(text, at),
        at.pos < text.len(),
        model::after_gap(text, st) == Ok::<ScanState, Failure>(at),
        model::content(text, at) == Ok::<Produced, Failure>(p),
        p.st.doc_open,
    ensures
        model::fetch(text, limits, st) == Ok::<ScanState, Failure>(next),
        next.pos == p.st.pos,
        next.flow_depth == p.st.flow_depth,
        next.indent == p.st.indent,
        next.indents == p.st.indents,
        next.handles == p.st.handles,
        p.st.flow_depth > 0 || !model::is_node(p.tok.kind) ==> next.key_allowed
            == p.st.key_allowed,
        scan::kinds(next.out) == scan::kinds(p.st.out) + seq![p.tok.kind],
{
    let next = model::token_added(text, at.pos, p)->Ok_0;
    assert(model::token_step(text, at) == Ok::<ScanState, Failure>(next));
    assert(scan::kinds(next.out) == scan::kinds(p.st.out) + seq![p.tok.kind]);
    next
}

/// Inside a flow collection each indicator is its token, whatever blanks, line breaks and
/// comments stand before it.
pub proof fn law_flow_indicators_are_scanned(
    text: Seq<char>,
    limits: Limits,
    st: ScanState,
    bits: Seq<Bit>,
) -> (next: ScanState)
    requires
        is_inside(text, st),
        are_bits(bits),
        leaf::holds(text, st.pos, bits_text(bits, 0)),
        ({
            let e = st.pos + bits_text(bits, 0).len();
            e < text.len() && sign(text[e]) is Some
        }),
    ensures
        ({
            let e = st.pos + bits_text(bits, 0).len();
            &&& model::fetch(text, limits, st) == Ok::<ScanState, Failure>(next)
            &&& next.pos == e + 1
            &&& next.flow_depth == depth_after(text[e], st.flow_depth)
            &&& scan::kinds(next.out) == scan::kinds(st.out) + seq![sign(text[e])->Some_0]
            &&& next.indent == st.indent
            &&& next.indents == st.indents
            &&& next.handles == st.handles
            &&& next.key_allowed == st.key_allowed
        }),
{
    let at = lemma_flow_gap(text, st, bits);
    let p = model::content(text, at)->Ok_0;
    assert(model::content(text, at) == Ok::<Produced, Failure>(p));
    lemma_step(text, limits, st, at, p)
}

/// What follows a plain scalar inside a flow collection.
pub open spec fn ends_flow_word(text: Seq<char>, e: int) -> bool {
    0 <= e < text.len() && {
        let c = text[e];
        ||| c == ',' || c == '[' || c == ']' || c == '{' || c == '}'
        ||| c == ' ' && e + 1 < text.len() && text[e + 1] == '#'
        ||| c == ':' && e + 1 < text.len() && {
            let d = text[e + 1];
            d == ' ' || d == '\t' || d == '\n' || d == ',' || d == '[' || d == ']' || d == '{' || d
                == '}'
        }
    }
}

/// What may follow a piece inside a flow collection.
pub open spec fn ends_flow_piece(text: Seq<char>, e: int, p: Piece) -> bool {
    match p {
        Piece::Word(Word::Plain(_)) => ends_flow_word(text, e),
        Piece::Word(Word::Single(_)) => e == text.len() || 0 <= e < text.len() && text[e] != '\'',
        Piece::Word(Word::Double(_)) => true,
        Piece::Verbatim(_) => true,
        _ => 0 <= e < text.len() && (words::is_space(text[e]) || ends_flow_word(text, e)),
    }
}

/// Inside a flow collection a scalar of any style, a property and an alias are their tokens,
/// whatever blanks, line breaks and comments stand before them.
pub proof fn law_flow_pieces_are_scanned(
    text: Seq<char>,
    limits: Limits,
    st: ScanState,
    bits: Seq<Bit>,
    p: Piece,
) -> (next: ScanState)
    requires
        is_inside(text, st),
        st.handles == properties::default_handles(),
        are_bits(bits),
        words::is_piece(p),
        p matches Piece::Word(Word::Plain(s)) ==> s[0] != ':',
        leaf::holds(text, st.pos, bits_text(bits, 0)),
        leaf::holds(text, st.pos + bits_text(bits, 0).len(), words::piece_text(p)),
        ends_flow_piece(
            text,
            st.pos + bits_text(bits, 0).len() + words::piece_text(p).len(),
            p,
        ),
    ensures
        model::fetch(text, limits, st) == Ok::<ScanState, Failure>(next),
        next.pos == st.pos + bits_text(bits, 0).len() + words::piece_text(p).len(),
        next.flow_depth == st.flow_depth,
        scan::kinds(next.out) == scan::kinds(st.out) + seq![words::piece_lexeme(p)],
        next.indent == st.indent,
        next.indents == st.indents,
        next.handles == st.handles,
        next.key_allowed == st.key_allowed,
{
    let i = st.pos + bits_text(bits, 0).len();
    let t = words::piece_text(p);
    steps::lemma_piece_line(p);
    assert(text[i + 0] == t[0]);
    assert(t[0] != '\n');
    if let Piece::Word(Word::Plain(s)) = p {
        assert(s[0] != ',');
    }
    let at = lemma_flow_gap(text, st, bits);
    let out = lemma_flow_piece(text, at, p);
    lemma_step(text, limits, st, at, out)
}

proof fn lemma_flow_piece(text: Seq<char>, at: ScanState, p: Piece) -> (out: Produced)
    requires
        words::is_piece(p),
        p matches Piece::Word(Word::Plain(s)) ==> s[0] != ':',
        leaf::holds(text, at.pos, words::piece_text(p)),
        at.flow_depth > 0,
        at.handles == properties::default_handles(),
        ends_flow_piece(text, at.pos + words::piece_text(p).len(), p),
    ensures
        model::content(text, at) == Ok::<Produced, Failure>(out),
        out.st == (ScanState { pos: at.pos + words::piece_text(p).len(), ..at }),
        out.tok.kind == words::piece_lexeme(p),
{
    let t = words::piece_text(p);
    let i = at.pos;
    steps::lemma_piece_line(p);
    assert(text[i + 0] == t[0]);
    match p {
        Piece::Word(Word::Single(s)) => {
            words::lemma_single(text, i, s);
        },
        Piece::Word(Word::Double(gs)) => {
            words::lemma_double(text, i, gs);
        },
        Piece::Word(Word::Plain(s)) => {
            lemma_flow_plain(text, i, s, at.indent);
            assert(s[0] != ',');
            if s.len() > 1 {
                assert(text[i + 1] == s[1]);
                assert(s[1] != ',' && s[1] != '\n');
            }
            if s.len() > 2 {
                assert(text[i + 2] == s[2]);
            }
            if s.len() > 3 {
                assert(text[i + 3] == s[3]);
                assert(s[3] != '\n');
            }
        },
        Piece::Anchor(name) => {
            leaf::lemma_holds(text, i, seq!['&'], name);
            lemma_flow_name(text, i + 1, name, Run::Name);
        },
        Piece::Alias(name) => {
            leaf::lemma_holds(text, i, seq!['*'], name);
            lemma_flow_name(text, i + 1, name, Run::Name);
        },
        Piece::Verbatim(uri) => {
            words::lemma_verbatim(text, i, uri);
        },
        Piece::Standard(name) => {
            leaf::lemma_holds(text, i, seq!['!', '!'], name);
            assert(text[i + 1] == t[1]);
            lex::lemma_run_is(Run::TagWord, text, i + 1, i + 1);
            assert(text.subrange(i + 1, i + 1) == Seq::<char>::empty());
            lemma_flow_name(text, i + 2, name, Run::TagWord);
            words::lemma_handles();
            assert(seq!['!'] + Seq::<char>::empty() + seq!['!'] == seq!['!', '!']);
        },
        Piece::Local(name) => {
            leaf::lemma_holds(text, i, seq!['!'], name);
            if name.len() > 0 {
                assert(text[i + 1] == t[1]);
            }
            lemma_flow_name(text, i + 1, name, Run::TagWord);
            words::lemma_handles();
        },
    }
    model::content(text, at)->Ok_0
}

proof fn lemma_flow_name(text: Seq<char>, i: int, name: Seq<char>, run: Run)
    requires
        run == Run::Name && words::is_name(name) || run == Run::TagWord && words::is_tag_name(name),
        leaf::holds(text, i, name),
        ({
            let e = i + name.len();
            0 <= e < text.len() && (words::is_space(text[e]) || ends_flow_word(text, e))
        }),
    ensures
        lex::run_end(run, text, i) == i + name.len(),
        text.subrange(i, i + name.len()) == name,
{
    let e = i + name.len();
    assert forall|j: int| i <= j < e implies lex::in_run(run, text, j) by {
        assert(text[i + (j - i)] == name[j - i]);
        if j + 1 < e {
            assert(text[i + (j - i + 1)] == name[j - i + 1]);
            assert(!words::is_space(name[j - i + 1]));
        }
    }
    lex::lemma_run_is(run, text, i, e);
    assert(text.subrange(i, e) == name) by {
        assert forall|k: int| 0 <= k < name.len() implies text.subrange(i, e)[k] == name[k] by {
            assert(text[i + k] == name[k]);
        }
    }
}

proof fn lemma_flow_plain(text: Seq<char>, i: int, s: Seq<char>, indent: int)
    requires
        leaf::holds(text, i, s),
        words::is_plain(s),
        ends_flow_word(text, i + s.len()),
    ensures
        plain::plain_scalar(text, i, true, indent) == (PlainScalar {
            value: s,
            end: i + s.len(),
            content_end: i + s.len(),
        }),
        !plain::plain_stop(text, i),
{
    let e = i + s.len();
    assert forall|j: int| i <= j < e implies !plain::plain_stop(text, j) by {
        let k = j - i;
        assert(text[i + k] == s[k]);
        assert(s[k] != ',');
        if k + 1 < s.len() {
            assert(text[i + (k + 1)] == s[k + 1]);
            assert(s[k + 1] != ',' && s[k + 1] != '\n');
        }
    }
    assert(plain::plain_stop(text, e));
    plain::lemma_plain_line_is(text, i, e);
    assert(text.subrange(i, e) == s) by {
        assert forall|k: int| 0 <= k < s.len() implies text.subrange(i, e)[k] == s[k] by {
            assert(text[i + k] == s[k]);
        }
    }
    assert(s[s.len() - 1] != ',');
    assert(text::trim_blanks(s) == s);
}

} // verus!
