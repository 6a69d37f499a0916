//! What lies between two tokens.

use crate::error::Error;
use crate::scanner::lex;
use crate::scanner::lex::{scan_error, skip_run, Run};
use crate::scanner::model;
use crate::scanner::model::Gap;
use crate::scanner::reader::Reader;
use vstd::prelude::*;

verus! {

/// What the scanner learns from the text between two tokens.
#[derive(Clone, Copy)]
pub struct Pause {
    /// Whether a comment may begin here.
    pub separated: bool,
    pub key_allowed: bool,
    pub at_line_start: bool,
    pub tab_in_indent: bool,
}

impl Pause {
    /// The gap that has been skipped up to `pos`.
    pub open spec fn gap(self, pos: int) -> Gap {
        Gap {
            pos,
            separated: self.separated,
            key_allowed: self.key_allowed,
            at_line_start: self.at_line_start,
            tab_in_indent: self.tab_in_indent,
        }
    }
}

/// Skips blanks, line breaks and comments.
pub fn skip_gap(r: &mut Reader, block: bool, before: Pause) -> (res: Result<Pause, Error>)
    requires
        old(r).wf(),
    ensures
        final(r).wf(),
        final(r).text() == old(r).text(),
        final(r).at() >= old(r).at(),
        match model::skip_gap(old(r).text(), block, before.gap(old(r).at())) {
            Ok(g) => res matches Ok(p) && p.gap(final(r).at()) == g,
            Err(f) => res matches Err(e) && e@ == f.fault && final(r).at() == old(r).at(),
        },
{
    let ghost text = r.text();
    let ghost total = model::skip_gap(text, block, before.gap(r.at()));
    let mut p = before;
    loop
        invariant
            r.wf(),
            r.text() == text,
            r.at() >= old(r).at(),
            text == old(r).text(),
            total == model::skip_gap(old(r).text(), block, before.gap(old(r).at())),
            total == model::skip_gap(text, block, p.gap(r.at())),
            p.separated || r.at() == old(r).at(),
        decreases text.len() - r.at(),
    {
        proof {
            r.lemma_bounds();
        }
        match r.peek() {
            Some(' ') => {
                p.separated = true;
                r.advance();
            },
            Some('\t') => {
                if block && p.at_line_start {
                    p.tab_in_indent = true;
                }
                p.separated = true;
                r.advance();
            },
            Some('\n') | Some('\r') => {
                if block {
                    p.key_allowed = true;
                }
                p.at_line_start = true;
                p.tab_in_indent = false;
                p.separated = true;
                r.advance();
            },
            Some('#') => {
                if !p.separated {
                    let pos = r.position();
                    return Err(scan_error(r, pos, "a comment must be preceded by whitespace"));
                }
                proof {
                    lex::lemma_run_end(Run::Line, text, r.at() + 1);
                }
                skip_run(r, Run::Line);
            },
            _ => {
                p.at_line_start = false;
                return Ok(p);
            },
        }
    }
}

} // verus!
