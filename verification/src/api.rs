//! Public, ergonomic entry points: source text to values and back.

use crate::composer;
use crate::composer::compose;
use crate::composer::model::Context;
use crate::emitter;
use crate::emitter::{all_shown, emit, emit_documents};
use crate::error;
use crate::error::{Error, ErrorKind, Fault};
use crate::floats::{FloatTable, Floats};
use crate::node::Node;
use crate::options;
use crate::options::{EmitOptions, Limits, ParseOptions};
use crate::parser;
use crate::parser::parse_events;
use crate::scanner;
use crate::scanner::reader;
use crate::text;
use crate::text::decimal_string;
use crate::value;
use crate::value::Value;
use vstd::prelude::*;

verus! {

// ---------------------------------------------------------------------------
// Parsing
// ---------------------------------------------------------------------------

/// The values of the documents in a text, or the first fault. `floats` tells
/// which numbers the decimal texts write.
pub open spec fn documents(text: Seq<char>, options: ParseOptions, floats: Floats) -> Result<
    Seq<Node>,
    Fault,
> {
    match parser::events(text, options) {
        Err(f) => Err(f),
        Ok(evs) => composer::model::stream(Context { options, floats: floats.bits }, evs),
    }
}

/// The value of a text that holds at most one document; none is null.
pub open spec fn document(text: Seq<char>, options: ParseOptions, floats: Floats) -> Result<
    Node,
    Fault,
> {
    match documents(text, options, floats) {
        Err(f) => Err(f),
        Ok(nodes) => if nodes.len() == 0 {
            Ok(Node::Null)
        } else if nodes.len() == 1 {
            Ok(nodes[0])
        } else {
            Err(
                error::bare_fault(
                    ErrorKind::Compose,
                    "expected a single document, found "@ + text::decimal_text(nodes.len())
                        + "; use parse_documents"@,
                ),
            )
        },
    }
}

/// Where a text does not give values, the fault says where in the text it is: the
/// scan, the parse and the composition all locate what they reject.
pub proof fn law_faults_are_located(text: Seq<char>, options: ParseOptions, floats: Floats)
    ensures
        documents(text, options, floats) matches Err(f) ==> f.span is Some,
{
    scanner::laws::law_scan_faults_are_located(text, options.limits);
    if let Ok(ts) = scanner::model::tokens(text, options.limits) {
        let room = options.limits.max_depth as nat;
        parser::shape::law_events_are_balanced(ts, room);
        if let Ok(evs) = parser::events(text, options) {
            let ctx = Context { options, floats: floats.bits };
            composer::laws::law_whole_streams_compose(ctx, evs, room);
        }
    }
}

/// Raising the limits never turns a success into an error, and never changes the values
/// of a text.
pub proof fn law_higher_limits_keep_values(
    text: Seq<char>,
    options: ParseOptions,
    limits: Limits,
    floats: Floats,
)
    requires
        parser::limits::allows_more(options.limits, limits),
        options.limits.max_aliases <= limits.max_aliases,
    ensures
        documents(text, options, floats) matches Ok(nodes) ==> documents(
            text,
            ParseOptions { limits, ..options },
            floats,
        ) == Ok::<Seq<Node>, Fault>(nodes),
        document(text, options, floats) matches Ok(n) ==> document(
            text,
            ParseOptions { limits, ..options },
            floats,
        ) == Ok::<Node, Fault>(n),
{
    let other = ParseOptions { limits, ..options };
    parser::limits::law_higher_limits_keep_events(text, options, other);
    if let Ok(evs) = parser::events(text, options) {
        composer::laws::law_more_copies_keep_values(
            Context { options, floats: floats.bits },
            Context { options: other, floats: floats.bits },
            evs,
        );
    }
}

/// A text over the size limit gives no values.
pub proof fn law_large_input_is_rejected(text: Seq<char>, options: ParseOptions, floats: Floats)
    requires
        reader::byte_offset(text, text.len() as int) > options.limits.max_input_bytes,
    ensures
        documents(text, options, floats) matches Err(f) && f.kind == ErrorKind::LimitExceeded,
        document(text, options, floats) matches Err(f) && f.kind == ErrorKind::LimitExceeded,
{
    scanner::laws::law_large_input_is_rejected(text, options.limits);
}

/// A text without documents is null, a text with one is its value, and a text with more is
/// refused without a place.
pub proof fn law_single_documents(
    text: Seq<char>,
    options: ParseOptions,
    floats: Floats,
    nodes: Seq<Node>,
)
    requires
        documents(text, options, floats) == Ok::<Seq<Node>, Fault>(nodes),
    ensures
        nodes == Seq::<Node>::empty() ==> document(text, options, floats) == Ok::<Node, Fault>(
            Node::Null,
        ),
        nodes.len() == 1 ==> document(text, options, floats) == Ok::<Node, Fault>(nodes[0]),
        nodes.len() > 1 ==> (document(text, options, floats) matches Err(f) && f.kind
            == ErrorKind::Compose && f.span is None),
{
}

/// Parses a single-document YAML string into a value using default options.
///
/// An empty stream yields null. More than one document is an error; use
/// [`parse_documents`] for multi-document streams. `floats` gives the numbers
/// that the decimal texts of the input write.
pub fn parse(input: &str, floats: &FloatTable) -> (res: Result<Value, Error>)
    ensures
        match document(input@, options::default_parse_options(), floats@) {
            Ok(n) => res matches Ok(v) && v@ == n && value::is_bare(v),
            Err(f) => res matches Err(e) && e@ == f,
        },
{
    parse_with(input, &ParseOptions::default(), floats)
}

/// Like [`parse`], with explicit options.
pub fn parse_with(input: &str, options: &ParseOptions, floats: &FloatTable) -> (res: Result<
    Value,
    Error,
>)
    ensures
        match document(input@, *options, floats@) {
            Ok(n) => res matches Ok(v) && v@ == n && value::is_bare(v),
            Err(f) => res matches Err(e) && e@ == f,
        },
{
    match parse_documents_with(input, options, floats) {
        Err(e) => Err(e),
        Ok(documents) => {
            let mut documents = documents;
            let ghost nodes = value::nodes(documents@);
            let n: usize = documents.len();
            match documents.pop() {
                None => Ok(Value::null()),
                Some(v) => {
                    if n == 1 {
                        assert(v@ == nodes[0]);
                        return Ok(v);
                    }
                    let mut message = "expected a single document, found ".to_string();
                    message.append(decimal_string(n as u64).as_str());
                    message.append("; use parse_documents");
                    Err(Error::new(ErrorKind::Compose, message.as_str()))
                },
            }
        },
    }
}

/// Parses every document in a YAML stream using default options.
pub fn parse_documents(input: &str, floats: &FloatTable) -> (res: Result<Vec<Value>, Error>)
    ensures
        match documents(input@, options::default_parse_options(), floats@) {
            Ok(nodes) => res matches Ok(v) && value::nodes(v@) == nodes && value::are_all_bare(v@),
            Err(f) => res matches Err(e) && e@ == f,
        },
{
    parse_documents_with(input, &ParseOptions::default(), floats)
}

/// Like [`parse_documents`], with explicit options.
pub fn parse_documents_with(input: &str, options: &ParseOptions, floats: &FloatTable) -> (res:
    Result<Vec<Value>, Error>)
    ensures
        match documents(input@, *options, floats@) {
            Ok(nodes) => res matches Ok(v) && value::nodes(v@) == nodes && value::are_all_bare(v@),
            Err(f) => res matches Err(e) && e@ == f,
        },
{
    match parse_events(input, options) {
        Err(e) => Err(e),
        Ok(events) => compose(events.as_slice(), options, floats),
    }
}

// ---------------------------------------------------------------------------
// Emitting
// ---------------------------------------------------------------------------

/// The fault of emitting a finite float whose text is not known.
pub open spec fn unshown() -> Fault {
    error::bare_fault(ErrorKind::Compose, "the text of a float is not known"@)
}

fn unshown_error() -> (e: Error)
    ensures
        e@ == unshown(),
{
    Error::new(ErrorKind::Compose, "the text of a float is not known")
}

/// Every finite float of the values has a text.
pub open spec fn all_are_shown(nodes: Seq<Node>, floats: Floats) -> bool {
    forall|i: int| 0 <= i < nodes.len() ==> emitter::is_shown(#[trigger] nodes[i], floats.texts)
}

/// Serializes a value to a YAML document string using default options. `floats`
/// gives the texts that its finite floats are shown as.
pub fn to_string(value: &Value, floats: &FloatTable) -> (res: Result<String, Error>)
    ensures
        if emitter::is_shown(value@, floats@.texts) {
            res matches Ok(s) && s@ == emitter::document_text(value@, floats@.texts)
        } else {
            res matches Err(e) && e@ == unshown()
        },
{
    to_string_with(value, &EmitOptions::default(), floats)
}

/// Like [`to_string`], with explicit options.
pub fn to_string_with(value: &Value, options: &EmitOptions, floats: &FloatTable) -> (res: Result<
    String,
    Error,
>)
    ensures
        if emitter::is_shown(value@, floats@.texts) {
            res matches Ok(s) && s@ == emitter::document_text(value@, floats@.texts)
        } else {
            res matches Err(e) && e@ == unshown()
        },
{
    if !all_shown(value, floats) {
        return Err(unshown_error());
    }
    Ok(emit(value, options, floats))
}

/// Serializes multiple values to a multi-document YAML stream using default options.
pub fn to_string_documents(values: &[Value], floats: &FloatTable) -> (res: Result<String, Error>)
    ensures
        if all_are_shown(value::nodes(values@), floats@) {
            res matches Ok(s) && s@ == emitter::stream_text(
                value::nodes(values@),
                0,
                floats@.texts,
            )
        } else {
            res matches Err(e) && e@ == unshown()
        },
{
    to_string_documents_with(values, &EmitOptions::default(), floats)
}

/// Like [`to_string_documents`], with explicit options.
pub fn to_string_documents_with(values: &[Value], options: &EmitOptions, floats: &FloatTable) -> (res:
    Result<String, Error>)
    ensures
        if all_are_shown(value::nodes(values@), floats@) {
            res matches Ok(s) && s@ == emitter::stream_text(
                value::nodes(values@),
                0,
                floats@.texts,
            )
        } else {
            res matches Err(e) && e@ == unshown()
        },
{
    let ghost nodes = value::nodes(values@);
    let mut i: usize = 0;
    while i < values.len()
        invariant
            i <= values.len(),
            nodes == value::nodes(values@),
            forall|j: int|
                0 <= j < i ==> emitter::is_shown(#[trigger] nodes[j], floats@.texts),
        decreases values.len() - i,
    {
        if !all_shown(&values[i], floats) {
            assert(!emitter::is_shown(nodes[i as int], floats@.texts));
            return Err(unshown_error());
        }
        i += 1;
    }
    proof {
        assert forall|j: int| 0 <= j < values@.len() implies emitter::is_shown(
            (#[trigger] values@[j])@,
            floats@.texts,
        ) by {
            assert(emitter::is_shown(nodes[j], floats@.texts));
        }
    }
    Ok(emit_documents(values, options, floats))
}

} // verus!
