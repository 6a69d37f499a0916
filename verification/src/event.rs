//! The public event model produced by the parser.

use crate::error::Span;
use crate::meta::ScalarStyle;
use crate::text;
use crate::text::{copy_text, debug_string};
use vstd::prelude::*;

verus! {

/// A parser event with its source span.
#[derive(Debug, PartialEq)]
pub struct Event {
    pub kind: EventKind,
    pub span: Span,
}

/// The kinds of events the parser emits.
#[derive(Debug, PartialEq)]
pub enum EventKind {
    StreamStart,
    StreamEnd,
    DocumentStart,
    DocumentEnd,
    /// A scalar node. `anchor`/`tag` are the node's properties if present.
    Scalar { value: String, style: ScalarStyle, anchor: Option<String>, tag: Option<String> },
    /// An alias reference (`*name`).
    Alias(String),
    SequenceStart { anchor: Option<String>, tag: Option<String> },
    SequenceEnd,
    MappingStart { anchor: Option<String>, tag: Option<String> },
    MappingEnd,
}

/// The mathematical reading of an [`EventKind`].
#[verifier::ext_equal]
pub enum Happening {
    StreamStart,
    StreamEnd,
    DocumentStart,
    DocumentEnd,
    Scalar {
        value: Seq<char>,
        style: ScalarStyle,
        anchor: Option<Seq<char>>,
        tag: Option<Seq<char>>,
    },
    Alias(Seq<char>),
    SequenceStart { anchor: Option<Seq<char>>, tag: Option<Seq<char>> },
    SequenceEnd,
    MappingStart { anchor: Option<Seq<char>>, tag: Option<Seq<char>> },
    MappingEnd,
}

/// The mathematical reading of an [`Event`].
#[verifier::ext_equal]
pub struct Ev {
    pub kind: Happening,
    pub span: Span,
}

impl View for EventKind {
    type V = Happening;

    open spec fn view(&self) -> Happening {
        match *self {
            EventKind::StreamStart => Happening::StreamStart,
            EventKind::StreamEnd => Happening::StreamEnd,
            EventKind::DocumentStart => Happening::DocumentStart,
            EventKind::DocumentEnd => Happening::DocumentEnd,
            EventKind::Scalar { value, style, anchor, tag } => Happening::Scalar {
                value: value@,
                style,
                anchor: text::optional_text(anchor),
                tag: text::optional_text(tag),
            },
            EventKind::Alias(name) => Happening::Alias(name@),
            EventKind::SequenceStart { anchor, tag } => Happening::SequenceStart {
                anchor: text::optional_text(anchor),
                tag: text::optional_text(tag),
            },
            EventKind::SequenceEnd => Happening::SequenceEnd,
            EventKind::MappingStart { anchor, tag } => Happening::MappingStart {
                anchor: text::optional_text(anchor),
                tag: text::optional_text(tag),
            },
            EventKind::MappingEnd => Happening::MappingEnd,
        }
    }
}

impl View for Event {
    type V = Ev;

    open spec fn view(&self) -> Ev {
        Ev { kind: self.kind@, span: self.span }
    }
}

impl Event {
    pub fn new(kind: EventKind, span: Span) -> (e: Self)
        ensures
            e == (Event { kind, span }),
    {
        Self { kind, span }
    }
}

impl Clone for EventKind {
    fn clone(&self) -> (r: Self)
        ensures
            r@ == self@,
    {
        match self {
            EventKind::StreamStart => EventKind::StreamStart,
            EventKind::StreamEnd => EventKind::StreamEnd,
            EventKind::DocumentStart => EventKind::DocumentStart,
            EventKind::DocumentEnd => EventKind::DocumentEnd,
            EventKind::Scalar { value, style, anchor, tag } => EventKind::Scalar {
                value: value.clone(),
                style: *style,
                anchor: copy_text(anchor),
                tag: copy_text(tag),
            },
            EventKind::Alias(name) => EventKind::Alias(name.clone()),
            EventKind::SequenceStart { anchor, tag } => EventKind::SequenceStart {
                anchor: copy_text(anchor),
                tag: copy_text(tag),
            },
            EventKind::SequenceEnd => EventKind::SequenceEnd,
            EventKind::MappingStart { anchor, tag } => EventKind::MappingStart {
                anchor: copy_text(anchor),
                tag: copy_text(tag),
            },
            EventKind::MappingEnd => EventKind::MappingEnd,
        }
    }
}

impl Clone for Event {
    fn clone(&self) -> (r: Self)
        ensures
            r@ == self@,
    {
        Event { kind: self.kind.clone(), span: self.span }
    }
}

// ---------------------------------------------------------------------------
// Wording
// ---------------------------------------------------------------------------

/// An optional string in words.
pub open spec fn optional_words(s: Option<Seq<char>>) -> Seq<char> {
    match s {
        Some(s) => "Some("@ + text::debug_text(s) + ")"@,
        None => "None"@,
    }
}

/// A scalar style in words.
pub open spec fn style_words(style: ScalarStyle) -> Seq<char> {
    match style {
        ScalarStyle::Plain => "Plain"@,
        ScalarStyle::SingleQuoted => "SingleQuoted"@,
        ScalarStyle::DoubleQuoted => "DoubleQuoted"@,
        ScalarStyle::Literal => "Literal"@,
        ScalarStyle::Folded => "Folded"@,
    }
}

/// An event in words.
pub open spec fn event_words(kind: Happening) -> Seq<char> {
    match kind {
        Happening::StreamStart => "StreamStart"@,
        Happening::StreamEnd => "StreamEnd"@,
        Happening::DocumentStart => "DocumentStart"@,
        Happening::DocumentEnd => "DocumentEnd"@,
        Happening::Scalar { value, style, anchor, tag } => "Scalar { value: "@ + text::debug_text(
            value,
        ) + ", style: "@ + style_words(style) + ", anchor: "@ + optional_words(anchor) + ", tag: "@
            + optional_words(tag) + " }"@,
        Happening::Alias(name) => "Alias("@ + text::debug_text(name) + ")"@,
        Happening::SequenceStart { anchor, tag } => "SequenceStart { anchor: "@ + optional_words(
            anchor,
        ) + ", tag: "@ + optional_words(tag) + " }"@,
        Happening::SequenceEnd => "SequenceEnd"@,
        Happening::MappingStart { anchor, tag } => "MappingStart { anchor: "@ + optional_words(
            anchor,
        ) + ", tag: "@ + optional_words(tag) + " }"@,
        Happening::MappingEnd => "MappingEnd"@,
    }
}

fn optional_in_words(s: &Option<String>) -> (w: String)
    ensures
        w@ == optional_words(text::optional_text(*s)),
{
    match s {
        Some(s) => {
            let mut w = "Some(".to_string();
            w.append(debug_string(s.as_str()).as_str());
            w.append(")");
            w
        },
        None => "None".to_string(),
    }
}

fn style_in_words(style: ScalarStyle) -> (w: &'static str)
    ensures
        w@ == style_words(style),
{
    match style {
        ScalarStyle::Plain => "Plain",
        ScalarStyle::SingleQuoted => "SingleQuoted",
        ScalarStyle::DoubleQuoted => "DoubleQuoted",
        ScalarStyle::Literal => "Literal",
        ScalarStyle::Folded => "Folded",
    }
}

impl EventKind {
    /// The event in words.
    pub fn in_words(&self) -> (w: String)
        ensures
            w@ == event_words(self@),
    {
        match self {
            EventKind::StreamStart => "StreamStart".to_string(),
            EventKind::StreamEnd => "StreamEnd".to_string(),
            EventKind::DocumentStart => "DocumentStart".to_string(),
            EventKind::DocumentEnd => "DocumentEnd".to_string(),
            EventKind::Scalar { value, style, anchor, tag } => {
                let mut w = "Scalar { value: ".to_string();
                w.append(debug_string(value.as_str()).as_str());
                w.append(", style: ");
                w.append(style_in_words(*style));
                w.append(", anchor: ");
                w.append(optional_in_words(anchor).as_str());
                w.append(", tag: ");
                w.append(optional_in_words(tag).as_str());
                w.append(" }");
                w
            },
            EventKind::Alias(name) => {
                let mut w = "Alias(".to_string();
                w.append(debug_string(name.as_str()).as_str());
                w.append(")");
                w
            },
            EventKind::SequenceStart { anchor, tag } => {
                let mut w = "SequenceStart { anchor: ".to_string();
                w.append(optional_in_words(anchor).as_str());
                w.append(", tag: ");
                w.append(optional_in_words(tag).as_str());
                w.append(" }");
                w
            },
            EventKind::SequenceEnd => "SequenceEnd".to_string(),
            EventKind::MappingStart { anchor, tag } => {
                let mut w = "MappingStart { anchor: ".to_string();
                w.append(optional_in_words(anchor).as_str());
                w.append(", tag: ");
                w.append(optional_in_words(tag).as_str());
                w.append(" }");
                w
            },
            EventKind::MappingEnd => "MappingEnd".to_string(),
        }
    }
}

/// The readings of a sequence of events.
pub open spec fn evs(events: Seq<Event>) -> Seq<Ev> {
    Seq::new(events.len(), |i: int| events[i]@)
}

/// The event kind at `pos`, if there is one.
pub open spec fn kind_at(evs: Seq<Ev>, pos: int) -> Option<Happening> {
    if 0 <= pos < evs.len() {
        Some(evs[pos].kind)
    } else {
        None
    }
}

/// How many events are left at `pos`.
pub open spec fn left(evs: Seq<Ev>, pos: int) -> int {
    if 0 <= pos < evs.len() {
        evs.len() - pos
    } else {
        0
    }
}

} // verus!
