//! Anchors, aliases, tags and directives.

use crate::error::Error;
use crate::scanner::lex;
use crate::scanner::lex::{scan_error, skip_run, take_run, Run, Stop};
use crate::scanner::reader;
use crate::scanner::reader::Reader;
use crate::text;
use crate::text::{break_char, chars_of, debug_string, digit_char, same_text};
use vstd::hash_map::StringHashMap;
use vstd::prelude::*;

verus! {

// ---------------------------------------------------------------------------
// Anchors and aliases
// ---------------------------------------------------------------------------

/// The name that follows the `&` or `*` at `i`, and the place after it.
pub open spec fn node_name(text: Seq<char>, i: int, anchor: bool) -> Result<
    (Seq<char>, int),
    Stop,
> {
    let e = lex::run_end(Run::Name, text, i + 1);
    if e == i + 1 {
        let message = if anchor {
            "empty anchor name"@
        } else {
            "empty alias name"@
        };
        Err(lex::stop(text, i, e, message))
    } else {
        Ok((text.subrange(i + 1, e), e))
    }
}

/// Scans the name after the `&` or `*` under the cursor.
pub fn scan_anchor_or_alias(r: &mut Reader, anchor: bool) -> (res: Result<String, Error>)
    requires
        old(r).wf(),
        old(r).at() < old(r).text().len(),
    ensures
        final(r).wf(),
        final(r).text() == old(r).text(),
        final(r).at() >= old(r).at(),
        match node_name(old(r).text(), old(r).at(), anchor) {
            Ok(name) => res matches Ok(s) && s@ == name.0 && final(r).at() == name.1,
            Err(f) => res matches Err(e) && e@ == f.fault && final(r).at() == f.at,
        },
{
    let start = r.position();
    proof {
        r.lemma_bounds();
        lex::lemma_run_end(Run::Name, r.text(), r.at() + 1);
    }
    r.advance();
    let name = take_run(r, Run::Name);
    if name.as_str().is_empty() {
        let message = if anchor {
            "empty anchor name"
        } else {
            "empty alias name"
        };
        return Err(scan_error(r, start, message));
    }
    Ok(name)
}

// ---------------------------------------------------------------------------
// Tags
// ---------------------------------------------------------------------------

/// The handles of a document: each stands for a prefix.
pub struct TagHandles {
    map: StringHashMap<String>,
}

/// The handles that every document starts with: `!` for local tags and `!!` for
/// the core tags.
pub open spec fn default_handles() -> Map<Seq<char>, Seq<char>> {
    Map::empty().insert("!"@, "!"@).insert("!!"@, "tag:yaml.org,2002:"@)
}

impl View for TagHandles {
    type V = Map<Seq<char>, Seq<char>>;

    closed spec fn view(&self) -> Map<Seq<char>, Seq<char>> {
        self.map@.map_values(|s: String| s@)
    }
}

impl TagHandles {
    pub fn new() -> (h: Self)
        ensures
            h@ == default_handles(),
    {
        let mut h = Self { map: StringHashMap::new() };
        assert(h@ == Map::<Seq<char>, Seq<char>>::empty());
        h.insert("!".to_string(), "!".to_string());
        h.insert("!!".to_string(), "tag:yaml.org,2002:".to_string());
        h
    }

    /// Sets the prefix of a handle.
    pub fn insert(&mut self, handle: String, prefix: String)
        ensures
            final(self)@ == old(self)@.insert(handle@, prefix@),
    {
        self.map.insert(handle, prefix);
        assert(self@ == old(self)@.insert(handle@, prefix@));
    }

    /// The prefix of a handle, if it has one.
    pub fn get(&self, handle: &str) -> (p: Option<&String>)
        ensures
            match p {
                Some(prefix) => self@.contains_key(handle@) && self@[handle@] == prefix@,
                None => !self@.contains_key(handle@),
            },
    {
        self.map.get(handle)
    }
}

/// The tag whose `!` is at `i`, resolved by `handles`, and the place after it: a
/// verbatim `!<uri>`, a `!handle!suffix`, or a `!suffix`.
pub open spec fn tag(text: Seq<char>, i: int, handles: Map<Seq<char>, Seq<char>>) -> Result<
    (Seq<char>, int),
    Stop,
> {
    if reader::char_at(text, i + 1) == Some('<') {
        let e = lex::run_end(Run::Uri, text, i + 2);
        if reader::char_at(text, e) != Some('>') {
            Err(lex::stop(text, i, e, "unterminated verbatim tag"@))
        } else if e == i + 2 {
            Err(lex::stop(text, i, e + 1, "empty verbatim tag"@))
        } else {
            Ok((text.subrange(i + 2, e), e + 1))
        }
    } else {
        let e = lex::run_end(Run::TagWord, text, i + 1);
        let first = text.subrange(i + 1, e);
        if reader::char_at(text, e) == Some('!') {
            let handle = "!"@ + first + "!"@;
            let end = lex::run_end(Run::TagWord, text, e + 1);
            if handles.contains_key(handle) {
                Ok((handles[handle] + text.subrange(e + 1, end), end))
            } else {
                Err(lex::stop(text, i, end, "undefined tag handle '"@ + handle + "'"@))
            }
        } else {
            let prefix = if handles.contains_key("!"@) {
                handles["!"@]
            } else {
                "!"@
            };
            Ok((prefix + first, e))
        }
    }
}

/// A tag ends inside the text.
pub proof fn lemma_tag(text: Seq<char>, i: int, handles: Map<Seq<char>, Seq<char>>)
    requires
        0 <= i < text.len(),
    ensures
        tag(text, i, handles) matches Ok(t) ==> i < t.1 <= text.len(),
{
    lex::lemma_run_end(Run::Uri, text, i + 2);
    let e = lex::run_end(Run::TagWord, text, i + 1);
    lex::lemma_run_end(Run::TagWord, text, i + 1);
    lex::lemma_run_end(Run::TagWord, text, e + 1);
}

/// Scans and resolves the tag under the cursor.
pub fn scan_tag(r: &mut Reader, handles: &TagHandles) -> (res: Result<String, Error>)
    requires
        old(r).wf(),
        old(r).at() < old(r).text().len(),
    ensures
        final(r).wf(),
        final(r).text() == old(r).text(),
        final(r).at() >= old(r).at(),
        match tag(old(r).text(), old(r).at(), handles@) {
            Ok(t) => res matches Ok(s) && s@ == t.0 && final(r).at() == t.1,
            Err(f) => res matches Err(e) && e@ == f.fault && final(r).at() == f.at,
        },
{
    let start = r.position();
    proof {
        r.lemma_bounds();
    }
    r.advance();
    if r.peek() == Some('<') {
        r.advance();
        proof {
            lex::lemma_run_end(Run::Uri, r.text(), r.at());
        }
        let uri = take_run(r, Run::Uri);
        if r.peek() != Some('>') {
            return Err(scan_error(r, start, "unterminated verbatim tag"));
        }
        r.advance();
        if uri.as_str().is_empty() {
            return Err(scan_error(r, start, "empty verbatim tag"));
        }
        return Ok(uri);
    }
    let first = take_run(r, Run::TagWord);
    if r.peek() == Some('!') {
        r.advance();
        let suffix = take_run(r, Run::TagWord);
        let mut handle = "!".to_string();
        handle.append(first.as_str());
        handle.append("!");
        match handles.get(handle.as_str()) {
            Some(prefix) => {
                let mut resolved = prefix.clone();
                resolved.append(suffix.as_str());
                Ok(resolved)
            },
            None => {
                let mut message = "undefined tag handle '".to_string();
                message.append(handle.as_str());
                message.append("'");
                Err(scan_error(r, start, message.as_str()))
            },
        }
    } else {
        let mut resolved = match handles.get("!") {
            Some(prefix) => prefix.clone(),
            None => "!".to_string(),
        };
        resolved.append(first.as_str());
        Ok(resolved)
    }
}

// ---------------------------------------------------------------------------
// Directives
// ---------------------------------------------------------------------------

/// Digits around a dot at `k`.
pub open spec fn is_version_with_dot(v: Seq<char>, k: int) -> bool {
    &&& 0 < k < v.len() - 1
    &&& v[k] == '.'
    &&& forall|j: int| 0 <= j < v.len() && j != k ==> text::is_digit(#[trigger] v[j])
}

/// A `major.minor` version, both parts decimal digits.
pub open spec fn is_yaml_version(v: Seq<char>) -> bool {
    exists|k: int| is_version_with_dot(v, k)
}

/// Whether `v` is a `major.minor` version.
pub fn yaml_version(v: &str) -> (b: bool)
    ensures
        b == is_yaml_version(v@),
{
    let chars = chars_of(v);
    let mut dot: Option<usize> = None;
    let mut i: usize = 0;
    while i < chars.len()
        invariant
            i <= chars.len(),
            chars@ == v@,
            dot matches Some(k) ==> k < i && chars@[k as int] == '.',
            forall|j: int|
                0 <= j < i && Some(j as usize) != dot ==> text::is_digit(#[trigger] chars@[j]),
        decreases chars.len() - i,
    {
        let c = chars[i];
        if c == '.' && dot.is_none() {
            dot = Some(i);
        } else if !digit_char(c) {
            proof {
                if is_yaml_version(v@) {
                    let k = choose|k: int| is_version_with_dot(v@, k);
                    assert(v@[i as int] == c);
                    assert(i == k);
                    let d = dot->0 as int;
                    assert(v@[d] == '.');
                    assert(false);
                }
            }
            return false;
        }
        i += 1;
    }
    match dot {
        None => {
            proof {
                if is_yaml_version(v@) {
                    let k = choose|k: int| is_version_with_dot(v@, k);
                    assert(text::is_digit(chars@[k]));
                    assert(false);
                }
            }
            false
        },
        Some(k) => {
            let b: bool = k > 0 && k < chars.len() - 1;
            proof {
                if b {
                    assert(is_version_with_dot(v@, k as int));
                } else if is_yaml_version(v@) {
                    let other = choose|k: int| is_version_with_dot(v@, k);
                    assert(v@[k as int] == '.');
                    assert(other == k);
                    assert(false);
                }
            }
            b
        },
    }
}

/// What a directive leaves behind: the handles, whether a `%YAML` directive has
/// been seen, and the end of its line.
#[verifier::ext_equal]
pub struct Directive {
    pub handles: Map<Seq<char>, Seq<char>>,
    pub yaml_seen: bool,
    pub end: int,
}

/// The directive whose `%` is at `i`. `%TAG` sets a handle; `%YAML` must carry a
/// version and come once; any other directive is ignored.
pub open spec fn directive(
    text: Seq<char>,
    i: int,
    handles: Map<Seq<char>, Seq<char>>,
    yaml_seen: bool,
) -> Result<Directive, Stop> {
    let n = lex::run_end(Run::Word, text, i + 1);
    let name = text.subrange(i + 1, n);
    let a = lex::run_end(Run::Blanks, text, n);
    let a_end = lex::run_end(Run::Word, text, a);
    let b = lex::run_end(Run::Blanks, text, a_end);
    let b_end = lex::run_end(Run::Word, text, b);
    if name == "TAG"@ {
        let set = if a < a_end && b < b_end {
            handles.insert(text.subrange(a, a_end), text.subrange(b, b_end))
        } else {
            handles
        };
        Ok(Directive { handles: set, yaml_seen, end: lex::run_end(Run::Line, text, b_end) })
    } else if name == "YAML"@ {
        let version = text.subrange(a, a_end);
        if yaml_seen {
            Err(lex::stop(text, i, n, "a document may have at most one %YAML directive"@))
        } else if !is_yaml_version(version) {
            Err(
                lex::stop(
                    text,
                    i,
                    a_end,
                    "invalid %YAML version "@ + text::debug_text(version),
                ),
            )
        } else if b < text.len() && !text::is_break(text[b]) && text[b] != '#' {
            Err(lex::stop(text, i, b, "extra content after the %YAML directive version"@))
        } else {
            Ok(Directive { handles, yaml_seen: true, end: lex::run_end(Run::Line, text, b) })
        }
    } else {
        Ok(Directive { handles, yaml_seen, end: lex::run_end(Run::Line, text, n) })
    }
}

/// A directive ends inside the text.
pub proof fn lemma_directive(
    text: Seq<char>,
    i: int,
    handles: Map<Seq<char>, Seq<char>>,
    yaml_seen: bool,
)
    requires
        0 <= i < text.len(),
    ensures
        directive(text, i, handles, yaml_seen) matches Ok(d) ==> i < d.end <= text.len(),
{
    let n = lex::run_end(Run::Word, text, i + 1);
    lex::lemma_run_end(Run::Word, text, i + 1);
    let a = lex::run_end(Run::Blanks, text, n);
    lex::lemma_run_end(Run::Blanks, text, n);
    let a_end = lex::run_end(Run::Word, text, a);
    lex::lemma_run_end(Run::Word, text, a);
    let b = lex::run_end(Run::Blanks, text, a_end);
    lex::lemma_run_end(Run::Blanks, text, a_end);
    let b_end = lex::run_end(Run::Word, text, b);
    lex::lemma_run_end(Run::Word, text, b);
    lex::lemma_run_end(Run::Line, text, n);
    lex::lemma_run_end(Run::Line, text, b);
    lex::lemma_run_end(Run::Line, text, b_end);
}

/// Scans the directive under the cursor up to the end of its line.
pub fn scan_directive(r: &mut Reader, handles: &mut TagHandles, yaml_seen: &mut bool) -> (res:
    Result<(), Error>)
    requires
        old(r).wf(),
        old(r).at() < old(r).text().len(),
    ensures
        final(r).wf(),
        final(r).text() == old(r).text(),
        final(r).at() >= old(r).at(),
        match directive(old(r).text(), old(r).at(), old(handles)@, *old(yaml_seen)) {
            Ok(d) => {
                &&& res is Ok
                &&& final(handles)@ == d.handles
                &&& *final(yaml_seen) == d.yaml_seen
                &&& final(r).at() == d.end
            },
            Err(f) => {
                &&& res matches Err(e) && e@ == f.fault
                &&& final(handles)@ == old(handles)@
                &&& *final(yaml_seen) == *old(yaml_seen)
                &&& final(r).at() == f.at
            },
        },
{
    let start = r.position();
    let ghost text = r.text();
    let ghost i = r.at();
    proof {
        r.lemma_bounds();
    }
    r.advance();
    let name = take_run(r, Run::Word);
    if same_text(name.as_str(), "TAG") {
        skip_run(r, Run::Blanks);
        proof {
            r.lemma_bounds();
            lex::lemma_run_end(Run::Word, text, r.at());
        }
        let handle = take_run(r, Run::Word);
        skip_run(r, Run::Blanks);
        proof {
            r.lemma_bounds();
            lex::lemma_run_end(Run::Word, text, r.at());
        }
        let prefix = take_run(r, Run::Word);
        if !handle.as_str().is_empty() && !prefix.as_str().is_empty() {
            handles.insert(handle, prefix);
        }
    } else if same_text(name.as_str(), "YAML") {
        if *yaml_seen {
            return Err(scan_error(r, start, "a document may have at most one %YAML directive"));
        }
        skip_run(r, Run::Blanks);
        let version = take_run(r, Run::Word);
        if !yaml_version(version.as_str()) {
            let mut message = "invalid %YAML version ".to_string();
            let shown = debug_string(version.as_str());
            message.append(shown.as_str());
            return Err(scan_error(r, start, message.as_str()));
        }
        skip_run(r, Run::Blanks);
        proof {
            r.lemma_bounds();
        }
        if let Some(c) = r.peek() {
            if !break_char(c) && c != '#' {
                return Err(
                    scan_error(r, start, "extra content after the %YAML directive version"),
                );
            }
        }
        *yaml_seen = true;
    }
    skip_run(r, Run::Line);
    Ok(())
}

} // verus!
