//! Directives and the tags that they give a meaning.

use crate::reading::folds;
use crate::reading::words;
use crate::resolution;
use crate::roundtrip::leaf;
use crate::scanner::lex;
use crate::scanner::lex::{Run, Stop};
use crate::scanner::model;
use crate::scanner::model::ScanState;
use crate::scanner::properties;
use crate::scanner::properties::Directive;
use crate::text;
use vstd::prelude::*;

verus! {

// ---------------------------------------------------------------------------
// Texts
// ---------------------------------------------------------------------------

/// A text that white space ends.
pub open spec fn is_solid(s: Seq<char>) -> bool {
    s.len() > 0 && forall|i: int| 0 <= i < s.len() ==> !words::is_space(#[trigger] s[i])
}

/// At least one blank.
pub open spec fn is_gap(s: Seq<char>) -> bool {
    s.len() > 0 && folds::are_blanks(s)
}

pub open spec fn tag_word() -> Seq<char> {
    seq!['T', 'A', 'G']
}

pub open spec fn yaml_word() -> Seq<char> {
    seq!['Y', 'A', 'M', 'L']
}

/// The line ends at `e`.
pub open spec fn ends_line(text: Seq<char>, e: int) -> bool {
    e == text.len() || 0 <= e < text.len() && (text[e] == '\n' || text[e] == '\r')
}

/// White space or the end of the text at `e`.
spec fn ends_solid(text: Seq<char>, e: int) -> bool {
    e == text.len() || 0 <= e < text.len() && words::is_space(text[e])
}

proof fn lemma_solid_run(text: Seq<char>, i: int, s: Seq<char>)
    requires
        leaf::holds(text, i, s),
        is_solid(s),
        ends_solid(text, i + s.len()),
    ensures
        lex::run_end(Run::Word, text, i) == i + s.len(),
        text.subrange(i, i + s.len()) == s,
{
    let e = i + s.len();
    assert forall|j: int| i <= j < e implies lex::in_run(Run::Word, text, j) by {
        assert(text[i + (j - i)] == s[j - i]);
    }
    lex::lemma_run_is(Run::Word, text, i, e);
    assert(text.subrange(i, e) == s) by {
        assert forall|k: int| 0 <= k < s.len() implies text.subrange(i, e)[k] == s[k] by {
            assert(text[i + k] == s[k]);
        }
    }
}

proof fn lemma_gap_run(text: Seq<char>, i: int, s: Seq<char>)
    requires
        leaf::holds(text, i, s),
        folds::are_blanks(s),
        i + s.len() == text.len() || !words::is_white(text[i + s.len()]),
    ensures
        lex::run_end(Run::Blanks, text, i) == i + s.len(),
{
    let e = i + s.len();
    assert forall|j: int| i <= j < e implies lex::in_run(Run::Blanks, text, j) by {
        assert(text[i + (j - i)] == s[j - i]);
    }
    lex::lemma_run_is(Run::Blanks, text, i, e);
}

proof fn lemma_line_run(text: Seq<char>, i: int, s: Seq<char>)
    requires
        leaf::holds(text, i, s),
        words::is_line(s),
        ends_line(text, i + s.len()),
    ensures
        lex::run_end(Run::Line, text, i) == i + s.len(),
{
    let e = i + s.len();
    assert forall|j: int| i <= j < e implies lex::in_run(Run::Line, text, j) by {
        assert(text[i + (j - i)] == s[j - i]);
    }
    lex::lemma_run_is(Run::Line, text, i, e);
}

/// A name, a gap and an argument behind a `%`.
proof fn lemma_argument(text: Seq<char>, i: int, name: Seq<char>, gap: Seq<char>, arg: Seq<char>)
    requires
        is_solid(name),
        is_gap(gap),
        is_solid(arg),
        leaf::holds(text, i, name + (gap + arg)),
        ends_solid(text, i + name.len() + gap.len() + arg.len()),
    ensures
        ({
            let n = i + name.len();
            let a = n + gap.len();
            &&& lex::run_end(Run::Word, text, i) == n
            &&& text.subrange(i, n) == name
            &&& lex::run_end(Run::Blanks, text, n) == a
            &&& lex::run_end(Run::Word, text, a) == a + arg.len()
            &&& text.subrange(a, a + arg.len()) == arg
        }),
{
    let n = i + name.len();
    let a = n + gap.len();
    leaf::lemma_holds(text, i, name, gap + arg);
    leaf::lemma_holds(text, n, gap, arg);
    assert(text[n + 0] == gap[0]);
    assert(words::is_white(gap[0]));
    assert(text[a + 0] == arg[0]);
    assert(!words::is_space(arg[0]));
    lemma_solid_run(text, i, name);
    lemma_gap_run(text, n, gap);
    lemma_solid_run(text, a, arg);
}

// ---------------------------------------------------------------------------
// Directives
// ---------------------------------------------------------------------------

/// `%TAG` with a handle and a prefix sets the handle to the prefix and changes no other. What
/// else is on the line is passed over.
pub proof fn law_tag_directives_set_handles(
    text: Seq<char>,
    i: int,
    gaps: (Seq<char>, Seq<char>),
    handle: Seq<char>,
    prefix: Seq<char>,
    rest: Seq<char>,
    handles: Map<Seq<char>, Seq<char>>,
    seen: bool,
)
    requires
        0 <= i,
        is_gap(gaps.0),
        is_gap(gaps.1),
        is_solid(handle),
        is_solid(prefix),
        words::is_line(rest),
        rest.len() > 0 ==> words::is_space(rest[0]),
        leaf::holds(text, i + 1, tag_word() + (gaps.0 + handle) + (gaps.1 + (prefix + rest))),
        ends_line(
            text,
            i + 4 + gaps.0.len() + handle.len() + gaps.1.len() + prefix.len() + rest.len(),
        ),
    ensures
        properties::directive(text, i, handles, seen) == Ok::<Directive, Stop>(
            Directive {
                handles: handles.insert(handle, prefix),
                yaml_seen: seen,
                end: i + 4 + gaps.0.len() + handle.len() + gaps.1.len() + prefix.len()
                    + rest.len(),
            },
        ),
{
    let (g, h) = gaps;
    let head = tag_word() + (g + handle);
    let more = h + (prefix + rest);
    leaf::lemma_holds(text, i + 1, head, more);
    let e = i + 1 + head.len();
    leaf::lemma_holds(text, e, h, prefix + rest);
    let b = e + h.len();
    leaf::lemma_holds(text, b, prefix, rest);
    assert(text[e + 0] == h[0]);
    assert(words::is_white(h[0]));
    assert(text[b + 0] == prefix[0]);
    assert(!words::is_space(prefix[0]));
    if rest.len() > 0 {
        assert(text[b + prefix.len() + 0] == rest[0]);
    }
    assert(is_solid(tag_word()));
    lemma_argument(text, i + 1, tag_word(), g, handle);
    lemma_gap_run(text, e, h);
    lemma_solid_run(text, b, prefix);
    lemma_line_run(text, b + prefix.len(), rest);
    reveal_strlit("TAG");
    assert("TAG"@ == tag_word());
}

/// A version: digits, a dot and digits.
pub open spec fn version_text(major: Seq<char>, minor: Seq<char>) -> Seq<char> {
    major + (seq!['.'] + minor)
}

pub open spec fn is_version(major: Seq<char>, minor: Seq<char>) -> bool {
    &&& major.len() > 0
    &&& minor.len() > 0
    &&& resolution::are_digits(major, 10)
    &&& resolution::are_digits(minor, 10)
}

/// A version is digits, a dot and digits, and nothing else is.
pub proof fn law_versions_are_two_numbers(v: Seq<char>, major: Seq<char>, minor: Seq<char>)
    ensures
        is_version(major, minor) ==> properties::is_yaml_version(version_text(major, minor)),
        properties::is_yaml_version(v) ==> exists|k: int|
            0 <= k < v.len() && is_version(#[trigger] v.take(k), v.skip(k + 1)) && v == version_text(
                v.take(k),
                v.skip(k + 1),
            ),
{
    if is_version(major, minor) {
        let t = version_text(major, minor);
        let k = major.len() as int;
        assert forall|j: int| 0 <= j < t.len() && j != k implies text::is_digit(#[trigger] t[j]) by {
            if j < k {
                assert(t[j] == major[j]);
                assert(resolution::symbol(major[j]) < 10);
            } else {
                assert(t[j] == minor[j - k - 1]);
                assert(resolution::symbol(minor[j - k - 1]) < 10);
            }
        }
        assert(properties::is_version_with_dot(t, k));
    }
    if properties::is_yaml_version(v) {
        let k = choose|k: int| properties::is_version_with_dot(v, k);
        assert forall|j: int| 0 <= j < v.take(k).len() implies resolution::symbol(
            #[trigger] v.take(k)[j],
        ) < 10 by {
            assert(text::is_digit(v[j]));
        }
        assert forall|j: int| 0 <= j < v.skip(k + 1).len() implies resolution::symbol(
            #[trigger] v.skip(k + 1)[j],
        ) < 10 by {
            assert(text::is_digit(v[j + k + 1]));
        }
        assert(v == version_text(v.take(k), v.skip(k + 1)));
        assert(is_version(v.take(k), v.skip(k + 1)));
    }
}

/// `%YAML` with a version and nothing else but a comment is accepted once: it changes no
/// handle, and a second one is refused.
pub proof fn law_yaml_directives_come_once(
    text: Seq<char>,
    i: int,
    gap: Seq<char>,
    major: Seq<char>,
    minor: Seq<char>,
    blanks: Seq<char>,
    note: Option<Seq<char>>,
    handles: Map<Seq<char>, Seq<char>>,
)
    requires
        0 <= i,
        is_gap(gap),
        is_version(major, minor),
        folds::are_blanks(blanks),
        note is Some ==> blanks.len() > 0,
        note matches Some(c) ==> words::is_line(c),
        leaf::holds(
            text,
            i + 1,
            yaml_word() + (gap + version_text(major, minor)) + (blanks + note_text(note)),
        ),
        ends_line(
            text,
            i + 5 + gap.len() + version_text(major, minor).len() + blanks.len() + note_text(
                note,
            ).len(),
        ),
    ensures
        properties::directive(text, i, handles, false) == Ok::<Directive, Stop>(
            Directive {
                handles,
                yaml_seen: true,
                end: i + 5 + gap.len() + version_text(major, minor).len() + blanks.len()
                    + note_text(note).len(),
            },
        ),
        properties::directive(text, i, handles, true) is Err,
{
    let v = version_text(major, minor);
    let head = yaml_word() + (gap + v);
    let t = note_text(note);
    leaf::lemma_holds(text, i + 1, head, blanks + t);
    let e = i + 1 + head.len();
    leaf::lemma_holds(text, e, blanks, t);
    let b = e + blanks.len();
    if blanks.len() > 0 {
        assert(text[e + 0] == blanks[0]);
        assert(words::is_white(blanks[0]));
    }
    if t.len() > 0 {
        assert(text[b + 0] == t[0]);
    }
    assert(is_solid(v)) by {
        assert forall|j: int| 0 <= j < v.len() implies !words::is_space(#[trigger] v[j]) by {
            if j < major.len() {
                assert(v[j] == major[j]);
                assert(resolution::symbol(major[j]) < 10);
            } else if j > major.len() {
                assert(v[j] == minor[j - major.len() - 1]);
                assert(resolution::symbol(minor[j - major.len() - 1]) < 10);
            }
        }
    }
    assert(is_solid(yaml_word()));
    lemma_argument(text, i + 1, yaml_word(), gap, v);
    lemma_gap_run(text, e, blanks);
    assert(words::is_line(t)) by {
        if let Some(c) = note {
            assert forall|j: int| 0 <= j < t.len() implies #[trigger] t[j] != '\n' && t[j]
                != '\r' by {
                if j > 0 {
                    assert(t[j] == c[j - 1]);
                }
            }
        }
    }
    lemma_line_run(text, b, t);
    law_versions_are_two_numbers(v, major, minor);
    reveal_strlit("TAG");
    reveal_strlit("YAML");
    assert("YAML"@ == yaml_word());
    assert("TAG"@.len() != yaml_word().len());
}

pub open spec fn note_text(note: Option<Seq<char>>) -> Seq<char> {
    match note {
        None => Seq::empty(),
        Some(c) => seq!['#'] + c,
    }
}

/// A directive of another name changes nothing.
pub proof fn law_other_directives_are_ignored(
    text: Seq<char>,
    i: int,
    name: Seq<char>,
    rest: Seq<char>,
    handles: Map<Seq<char>, Seq<char>>,
    seen: bool,
)
    requires
        0 <= i,
        is_solid(name),
        name != tag_word(),
        name != yaml_word(),
        words::is_line(rest),
        rest.len() > 0 ==> words::is_space(rest[0]),
        leaf::holds(text, i + 1, name + rest),
        ends_line(text, i + 1 + name.len() + rest.len()),
    ensures
        properties::directive(text, i, handles, seen) == Ok::<Directive, Stop>(
            Directive { handles, yaml_seen: seen, end: i + 1 + name.len() + rest.len() },
        ),
{
    leaf::lemma_holds(text, i + 1, name, rest);
    let e = i + 1 + name.len();
    if rest.len() > 0 {
        assert(text[e + 0] == rest[0]);
    }
    lemma_solid_run(text, i + 1, name);
    lemma_line_run(text, e, rest);
    reveal_strlit("TAG");
    reveal_strlit("YAML");
    assert("YAML"@ == yaml_word());
    assert("TAG"@ == tag_word());
}

/// A `!handle!name` tag is the handle's prefix and then the name. A handle that nothing sets
/// is refused.
pub proof fn law_handles_are_resolved(
    text: Seq<char>,
    i: int,
    handle: Seq<char>,
    name: Seq<char>,
    handles: Map<Seq<char>, Seq<char>>,
)
    requires
        0 <= i < text.len(),
        words::is_tag_name(handle),
        words::is_tag_name(name),
        handle.len() > 0 ==> handle[0] != '<',
        leaf::holds(text, i + 1, handle + (seq!['!'] + name)),
        words::ends_name(text, i + 2 + handle.len() + name.len()),
    ensures
        ({
            let key = seq!['!'] + handle + seq!['!'];
            if handles.contains_key(key) {
                properties::tag(text, i, handles) == Ok::<(Seq<char>, int), Stop>(
                    (handles[key] + name, i + 2 + handle.len() + name.len()),
                )
            } else {
                properties::tag(text, i, handles) is Err
            }
        }),
{
    leaf::lemma_holds(text, i + 1, handle, seq!['!'] + name);
    let e = i + 1 + handle.len();
    leaf::lemma_holds(text, e, seq!['!'], name);
    assert(text[e + 0] == seq!['!'][0]);
    if handle.len() > 0 {
        assert(text[i + 1 + 0] == handle[0]);
    }
    words::lemma_name_run(text, i + 1, handle, Run::TagWord);
    words::lemma_name_run(text, e + 1, name, Run::TagWord);
    reveal_strlit("!");
    assert("!"@ == seq!['!']);
}

/// A `!<` that no `>` ends before white space, and one with nothing inside, are refused.
pub proof fn law_bad_verbatim_tags_are_refused(
    text: Seq<char>,
    i: int,
    uri: Seq<char>,
    handles: Map<Seq<char>, Seq<char>>,
)
    requires
        0 <= i,
        uri.len() == 0 || words::is_uri(uri),
        leaf::holds(text, i, seq!['!', '<'] + uri),
        ({
            let e = i + 2 + uri.len();
            ||| e == text.len()
            ||| words::is_space(text[e])
            ||| uri.len() == 0 && text[e] == '>'
        }),
    ensures
        properties::tag(text, i, handles) is Err,
{
    leaf::lemma_holds(text, i, seq!['!', '<'], uri);
    assert(text[i + 1] == seq!['!', '<'][1]);
    let e = i + 2 + uri.len();
    assert forall|j: int| i + 2 <= j < e implies lex::in_run(Run::Uri, text, j) by {
        assert(text[i + 2 + (j - i - 2)] == uri[j - i - 2]);
    }
    lex::lemma_run_is(Run::Uri, text, i + 2, e);
}

// ---------------------------------------------------------------------------
// Documents
// ---------------------------------------------------------------------------

/// Directives hold for the document behind them and for no other: its `---` keeps their
/// handles, the next `---` without directives takes the default ones, and so does a `...`.
pub proof fn law_directives_hold_for_one_document(text: Seq<char>, st: ScanState)
    requires
        !st.doc_open,
    ensures
        model::directive_step(text, st) matches Ok(set) ==> {
            let first = model::document_start(text, set).st;
            let second = model::document_start(text, first).st;
            &&& set.pending_directives
            &&& first.handles == set.handles
            &&& !first.pending_directives
            &&& second.handles == properties::default_handles()
            &&& model::document_end(text, first) matches Ok(p) ==> p.st.handles
                == properties::default_handles() && !p.st.doc_open
            &&& set.out == st.out
        },
        model::end_step(text, ScanState { pending_directives: true, ..st }) is Err,
        model::directive_step(text, ScanState { doc_open: true, ..st }) is Err,
{
    if let Ok(set) = model::directive_step(text, st) {
        model::lemma_unrolled(text, set, -1);
        let first = model::document_start(text, set).st;
        model::lemma_unrolled(text, first, -1);
    }
}

} // verus!
