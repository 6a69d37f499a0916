//! Per-node formatting metadata.

use crate::error::Span;
use crate::text;
use crate::text::copy_text;
use vstd::prelude::*;

verus! {

/// How a scalar was written in the source.
#[derive(Debug, Clone, Copy, PartialEq, Eq, Structural, Default)]
pub enum ScalarStyle {
    #[default]
    Plain,
    SingleQuoted,
    DoubleQuoted,
    Literal,
    Folded,
}

/// Comments attached to a node.
#[derive(Debug, PartialEq, Eq, Default)]
pub struct Comments {
    /// Full-line comments appearing immediately before the node.
    pub leading: Vec<String>,
    /// An inline comment on the same line as the node.
    pub trailing: Option<String>,
}

/// Optional formatting metadata for a node. Present only when round-tripping.
#[derive(Debug, PartialEq, Eq)]
pub struct Meta {
    pub comments: Comments,
    pub blank_lines_before: usize,
    pub style: ScalarStyle,
    pub span: Option<Span>,
    pub anchor: Option<String>,
    pub tag: Option<String>,
}

impl Meta {
    /// No comments, no blank lines, plain style, nothing else known.
    pub open spec fn is_blank(self) -> bool {
        &&& self.comments.leading@.len() == 0
        &&& self.comments.trailing is None
        &&& self.blank_lines_before == 0
        &&& self.style == ScalarStyle::Plain
        &&& self.span is None
        &&& self.anchor is None
        &&& self.tag is None
    }
}

/// The mathematical reading of [`Comments`].
#[verifier::ext_equal]
pub struct Remarks {
    pub leading: Seq<Seq<char>>,
    pub trailing: Option<Seq<char>>,
}

/// The mathematical reading of [`Meta`].
#[verifier::ext_equal]
pub struct Notes {
    pub comments: Remarks,
    pub blank_lines_before: usize,
    pub style: ScalarStyle,
    pub span: Option<Span>,
    pub anchor: Option<Seq<char>>,
    pub tag: Option<Seq<char>>,
}

impl View for Comments {
    type V = Remarks;

    open spec fn view(&self) -> Remarks {
        Remarks {
            leading: Seq::new(self.leading@.len(), |i: int| self.leading@[i]@),
            trailing: text::optional_text(self.trailing),
        }
    }
}

impl View for Meta {
    type V = Notes;

    open spec fn view(&self) -> Notes {
        Notes {
            comments: self.comments@,
            blank_lines_before: self.blank_lines_before,
            style: self.style,
            span: self.span,
            anchor: text::optional_text(self.anchor),
            tag: text::optional_text(self.tag),
        }
    }
}

impl Clone for Comments {
    fn clone(&self) -> (r: Self)
        ensures
            r@ == self@,
    {
        let mut leading: Vec<String> = Vec::new();
        let mut i: usize = 0;
        while i < self.leading.len()
            invariant
                i <= self.leading@.len(),
                leading@.len() == i,
                forall|j: int| 0 <= j < i ==> (#[trigger] leading@[j])@ == self.leading@[j]@,
            decreases self.leading@.len() - i,
        {
            leading.push(self.leading[i].clone());
            i += 1;
        }
        let r = Self { leading, trailing: copy_text(&self.trailing) };
        assert(r@.leading == self@.leading);
        r
    }
}

impl Clone for Meta {
    fn clone(&self) -> (r: Self)
        ensures
            r@ == self@,
    {
        Self {
            comments: self.comments.clone(),
            blank_lines_before: self.blank_lines_before,
            style: self.style,
            span: self.span,
            anchor: copy_text(&self.anchor),
            tag: copy_text(&self.tag),
        }
    }
}

impl Default for Meta {
    fn default() -> (m: Self)
        ensures
            m.is_blank(),
    {
        Self {
            comments: Comments { leading: Vec::new(), trailing: None },
            blank_lines_before: 0,
            style: ScalarStyle::Plain,
            span: None,
            anchor: None,
            tag: None,
        }
    }
}

} // verus!
