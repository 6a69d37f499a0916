//! What is written is what is read back.

pub mod compose;
pub mod leaf;
pub mod parse;
pub mod scan;

use crate::api;
use crate::composer;
use crate::composer::model::Context;
use crate::emitter;
use crate::error::Fault;
use crate::floats::Floats;
use crate::meta::ScalarStyle;
use crate::node;
use crate::node::Node;
use crate::options;
use crate::options::{Limits, ParseOptions, Schema};
use crate::parser;
use crate::parser::grammar;
use crate::resolution;
use crate::resolution::Decimal;
use crate::scalar;
use crate::scanner;
use crate::scanner::lex::Stop;
use crate::scanner::quoted;
use crate::scanner::reader;
use crate::writing;
use vstd::prelude::*;

verus! {

/// The text is not larger than the limits allow.
pub open spec fn is_accepted(text: Seq<char>, limits: Limits) -> bool {
    reader::byte_offset(text, text.len() as int) <= limits.max_input_bytes
}

/// The value can be written and read back by these options: its floats have texts
/// that stand for them, no mapping has a key twice, it nests no deeper than the
/// limit, and the options read its scalars and keys as what they are.
pub open spec fn comes_back(n: Node, options: ParseOptions, floats: Floats) -> bool {
    &&& scan::survives(n, floats)
    &&& parse::fits(n, options.limits.max_depth as nat)
    &&& compose::is_understood(options, n, floats)
}

/// A string in double quotes is read back as itself, whatever it holds.
pub proof fn law_quoted_strings_are_read_back(s: Seq<char>)
    ensures
        quoted::double_quoted(emitter::quoted_text(s), 0, 1, Seq::empty()) == Ok::<
            (Seq<char>, int),
            Stop,
        >((s, emitter::quoted_text(s).len() as int)),
{
    leaf::lemma_quoted(emitter::quoted_text(s), 0, s);
}

/// The core schema without merge keys, which the default options follow, reads
/// the scalars and keys of every value that survives as what they are.
pub proof fn law_core_schema_understands_values(n: Node, options: ParseOptions, floats: Floats)
    requires
        compose::reads_core(options),
        scan::survives(n, floats),
    ensures
        compose::is_understood(options, n, floats),
{
    compose::lemma_core_understands(options, n, floats);
}

/// A text that is one value, with or without a line break at its end, is parsed as
/// that value.
proof fn lemma_parse_line(
    text: Seq<char>,
    n: Node,
    options: ParseOptions,
    floats: Floats,
)
    requires
        comes_back(n, options, floats),
        text == emitter::flow_text(n, floats.texts) || text == emitter::document_text(
            n,
            floats.texts,
        ),
        is_accepted(text, options.limits),
    ensures
        api::document(text, options, floats) == Ok::<Node, Fault>(n),
{
    let values = seq![n];
    scan::lemma_scan_document(text, n, floats, options.limits);
    let ts = scanner::model::tokens(text, options.limits)->Ok_0;
    reveal_with_fuel(parse::stream_lexemes, 2);
    assert(parse::stream_lexemes(values, 0, floats.texts, false) == scan::lexemes(n, floats.texts));
    parse::lemma_parse_stream(
        ts,
        options.limits.max_depth as nat,
        values,
        floats.texts,
        false,
    );
    let evs = grammar::stream(ts, options.limits.max_depth as nat)->Ok_0;
    compose::lemma_compose_stream(Context { options, floats: floats.bits }, evs, values, floats);
}

/// Parsing the text that a value is written as gives the same value back, and so
/// does parsing it without the line break at its end.
pub proof fn law_parse_reads_what_emit_wrote(n: Node, options: ParseOptions, floats: Floats)
    requires
        comes_back(n, options, floats),
    ensures
        is_accepted(emitter::document_text(n, floats.texts), options.limits) ==> api::document(
            emitter::document_text(n, floats.texts),
            options,
            floats,
        ) == Ok::<Node, Fault>(n),
        is_accepted(emitter::flow_text(n, floats.texts), options.limits) ==> api::document(
            emitter::flow_text(n, floats.texts),
            options,
            floats,
        ) == Ok::<Node, Fault>(n),
{
    if is_accepted(emitter::document_text(n, floats.texts), options.limits) {
        lemma_parse_line(emitter::document_text(n, floats.texts), n, options, floats);
    }
    if is_accepted(emitter::flow_text(n, floats.texts), options.limits) {
        lemma_parse_line(emitter::flow_text(n, floats.texts), n, options, floats);
    }
}

/// The default options read back every value that nests no deeper than their limit
/// and whose text is no larger than they accept: types are kept, and the text ends
/// with a line break. The floats must have texts that stand for them.
pub proof fn law_defaults_read_what_emit_wrote(n: Node, floats: Floats)
    requires
        scan::survives(n, floats),
        parse::fits(n, options::default_limits().max_depth as nat),
        is_accepted(emitter::document_text(n, floats.texts), options::default_limits()),
    ensures
        emitter::document_text(n, floats.texts).last() == '\n',
        api::document(
            emitter::document_text(n, floats.texts),
            options::default_parse_options(),
            floats,
        ) == Ok::<Node, Fault>(n),
{
    let options = options::default_parse_options();
    compose::lemma_core_understands(options, n, floats);
    law_parse_reads_what_emit_wrote(n, options, floats);
}

/// A value without finite floats is read back by the default options whatever the tables
/// of floats hold: nothing is asked of them.
pub proof fn law_values_without_floats_are_read_back(n: Node, written: Floats, read: Floats)
    requires
        node::is_valid(n),
        scan::has_no_finite_float(n),
        parse::fits(n, options::default_limits().max_depth as nat),
        is_accepted(emitter::document_text(n, written.texts), options::default_limits()),
    ensures
        emitter::document_text(n, written.texts).last() == '\n',
        api::document(
            emitter::document_text(n, written.texts),
            options::default_parse_options(),
            read,
        ) == Ok::<Node, Fault>(n),
{
    let floats = Floats { texts: written.texts, bits: read.bits };
    scan::lemma_no_finite_float(n, floats);
    scan::lemma_legible(n, floats);
    law_defaults_read_what_emit_wrote(n, floats);
    assert(api::document(
        emitter::document_text(n, written.texts),
        options::default_parse_options(),
        read,
    ) == api::document(
        emitter::document_text(n, written.texts),
        options::default_parse_options(),
        floats,
    ));
}

/// The table tells the truth about decimal numbers: each text that it shows a number as
/// is a decimal that stands for it, it knows what is written for each, and each text that
/// it knows stands for the number it says. `reads` is the number that a decimal writes.
pub open spec fn is_truthful(floats: Floats, reads: spec_fn(Seq<char>) -> u64) -> bool {
    &&& writing::reads_decimals(reads)
    &&& forall|bits: u64|
        writing::is_number(bits) && #[trigger] floats.texts.contains_key(bits) ==> {
            &&& exists|d: Decimal|
                resolution::is_written(d) && floats.texts[bits]
                    == #[trigger] resolution::decimal_text(d)
            &&& reads(floats.texts[bits]) == bits
            &&& floats.bits.contains_key(emitter::float_text(bits, floats.texts[bits]))
        }
    &&& forall|t: Seq<char>| #[trigger]
        floats.bits.contains_key(t) ==> floats.bits[t] == reads(t)
}

/// The numbers of the value are shown; what is no number is an infinity or the value that
/// `.nan` stands for.
pub open spec fn has_shown_floats(n: Node, shown: Map<u64, Seq<char>>) -> bool
    decreases n,
{
    match n {
        Node::Float(bits) => if writing::is_number(bits) {
            shown.contains_key(bits)
        } else {
            bits == 0x7ff0_0000_0000_0000 || bits == 0xfff0_0000_0000_0000 || bits
                == 0x7ff8_0000_0000_0000
        },
        Node::Sequence(items) => forall|i: int|
            0 <= i < items.len() ==> has_shown_floats(#[trigger] items[i], shown),
        Node::Mapping(entries) => forall|i: int|
            0 <= i < entries.len() ==> has_shown_floats((#[trigger] entries[i]).0, shown)
                && has_shown_floats(entries[i].1, shown),
        _ => true,
    }
}

proof fn lemma_truthful(n: Node, floats: Floats, reads: spec_fn(Seq<char>) -> u64)
    requires
        is_truthful(floats, reads),
        has_shown_floats(n, floats.texts),
    ensures
        scan::is_legible(n, floats),
    decreases n,
{
    match n {
        Node::Float(bits) => {
            if writing::is_number(bits) {
                let shown = floats.texts[bits];
                let d = choose|d: Decimal|
                    resolution::is_written(d) && shown == #[trigger] resolution::decimal_text(d);
                writing::law_written_numbers_stand_for_themselves(bits, d, reads);
                writing::law_numbers_are_read_as_floats(bits, d, 0);
                writing::law_numbers_are_read_as_floats(bits, d, 1);
                let t = emitter::float_text(bits, shown);
                scalar::law_floats_come_from_decimals(
                    t,
                    ScalarStyle::Plain,
                    Schema::Core1_2,
                    0,
                    1,
                );
                assert(floats.bits.contains_key(t));
                assert(writing::is_number(bits) == emitter::is_finite(bits));
            }
        },
        Node::Sequence(items) => {
            assert forall|i: int| 0 <= i < items.len() implies scan::is_legible(
                #[trigger] items[i],
                floats,
            ) by {
                lemma_truthful(items[i], floats, reads);
            }
        },
        Node::Mapping(entries) => {
            assert forall|i: int| 0 <= i < entries.len() implies scan::is_legible(
                (#[trigger] entries[i]).0,
                floats,
            ) && scan::is_legible(entries[i].1, floats) by {
                lemma_truthful(entries[i].0, floats, reads);
                lemma_truthful(entries[i].1, floats, reads);
            }
        },
        _ => {},
    }
}

/// With a table that tells the truth, every value is read back by the default options:
/// what is asked of the table is that its own texts stand for the numbers, not what is
/// written for them.
pub proof fn law_truthful_tables_read_values_back(
    n: Node,
    floats: Floats,
    reads: spec_fn(Seq<char>) -> u64,
)
    requires
        node::is_valid(n),
        is_truthful(floats, reads),
        has_shown_floats(n, floats.texts),
        parse::fits(n, options::default_limits().max_depth as nat),
        is_accepted(emitter::document_text(n, floats.texts), options::default_limits()),
    ensures
        api::document(
            emitter::document_text(n, floats.texts),
            options::default_parse_options(),
            floats,
        ) == Ok::<Node, Fault>(n),
{
    lemma_truthful(n, floats, reads);
    scan::lemma_legible(n, floats);
    law_defaults_read_what_emit_wrote(n, floats);
}

/// A string in brackets is the text of a sequence that holds it.
proof fn lemma_bracketed(s: Seq<char>, floats: Floats)
    requires
        !emitter::needs_quoting(s),
    ensures
        emitter::flow_text(Node::Str(s), floats.texts) == s,
        emitter::flow_text(Node::Sequence(seq![Node::Str(s)]), floats.texts) == seq!['['] + s + seq![
            ']',
        ],
{
    let items = seq![Node::Str(s)];
    assert(emitter::items_text(items, 1, floats.texts) == Seq::<char>::empty());
    assert(emitter::flow_text(items[0], floats.texts) == s);
    assert(emitter::items_text(items, 0, floats.texts) == emitter::separator(0) + s
        + emitter::items_text(items, 1, floats.texts));
    assert(emitter::items_text(items, 0, floats.texts) == s);
}

/// A string, alone or in a sequence, comes back by the core schema.
proof fn lemma_string_comes_back(s: Seq<char>, options: ParseOptions, floats: Floats)
    requires
        compose::reads_core(options),
        options.limits.max_depth > 0,
    ensures
        comes_back(Node::Str(s), options, floats),
        comes_back(Node::Sequence(seq![Node::Str(s)]), options, floats),
{
    let bare = Node::Str(s);
    let items = seq![bare];
    let room = (options.limits.max_depth - 1) as nat;
    assert(scan::survives(bare, floats));
    assert(parse::fits(bare, room));
    assert(items[0] == bare);
    compose::lemma_core_understands(options, bare, floats);
    compose::lemma_core_understands(options, Node::Sequence(items), floats);
}

/// A string that needs no quotes is safe as a plain scalar: the bare string is
/// parsed as itself, and inside brackets as the only item of a sequence. It is not
/// empty and holds no control character.
pub proof fn law_unquoted_strings_are_safe(s: Seq<char>, options: ParseOptions, floats: Floats)
    requires
        !emitter::needs_quoting(s),
        compose::reads_core(options),
        options.limits.max_depth > 0,
        is_accepted(seq!['['] + s + seq![']'], options.limits),
        is_accepted(s, options.limits),
    ensures
        s.len() > 0,
        forall|i: int| 0 <= i < s.len() ==> !emitter::is_control(#[trigger] s[i]),
        api::document(s, options, floats) == Ok::<Node, Fault>(Node::Str(s)),
        api::document(seq!['['] + s + seq![']'], options, floats) == Ok::<Node, Fault>(
            Node::Sequence(seq![Node::Str(s)]),
        ),
{
    lemma_bracketed(s, floats);
    lemma_string_comes_back(s, options, floats);
    lemma_parse_line(s, Node::Str(s), options, floats);
    lemma_parse_line(
        seq!['['] + s + seq![']'],
        Node::Sequence(seq![Node::Str(s)]),
        options,
        floats,
    );
}

/// Parsing the stream that values are written as gives the same values back.
pub proof fn law_parse_reads_what_emit_documents_wrote(
    values: Seq<Node>,
    options: ParseOptions,
    floats: Floats,
)
    requires
        forall|i: int| 0 <= i < values.len() ==> comes_back(#[trigger] values[i], options, floats),
        is_accepted(emitter::stream_text(values, 0, floats.texts), options.limits),
    ensures
        api::documents(emitter::stream_text(values, 0, floats.texts), options, floats) == Ok::<
            Seq<Node>,
            Fault,
        >(values),
{
    let text = emitter::stream_text(values, 0, floats.texts);
    scan::lemma_scan_stream(values, floats, options.limits);
    let ts = scanner::model::tokens(text, options.limits)->Ok_0;
    parse::lemma_parse_stream(ts, options.limits.max_depth as nat, values, floats.texts, true);
    let evs = grammar::stream(ts, options.limits.max_depth as nat)->Ok_0;
    compose::lemma_compose_stream(Context { options, floats: floats.bits }, evs, values, floats);
}

/// The values of a text survive if their floats can be read back.
proof fn lemma_parsed_survives(
    text: Seq<char>,
    values: Seq<Node>,
    options: ParseOptions,
    floats: Floats,
    i: int,
)
    requires
        api::documents(text, options, floats) == Ok::<Seq<Node>, Fault>(values),
        0 <= i < values.len(),
        scan::is_legible(values[i], floats),
    ensures
        scan::survives(values[i], floats),
{
    let ctx = Context { options, floats: floats.bits };
    match parser::events(text, options) {
        Ok(evs) => {
            composer::laws::law_streams_give_valid_values(ctx, evs);
            if let Ok(nodes) = composer::model::stream(ctx, evs) {
                assert(node::is_valid(nodes[i]));
            }
        },
        Err(_) => {},
    }
    scan::lemma_legible(values[i], floats);
}

/// Writing what was parsed and parsing it again changes nothing: the values of a
/// text, written as a stream, are read as the same values by the core schema, if
/// they are still within the limits and their floats can be read back.
pub proof fn law_reparsing_changes_nothing(
    text: Seq<char>,
    values: Seq<Node>,
    options: ParseOptions,
    floats: Floats,
)
    requires
        compose::reads_core(options),
        api::documents(text, options, floats) == Ok::<Seq<Node>, Fault>(values),
        forall|i: int|
            0 <= i < values.len() ==> scan::is_legible(#[trigger] values[i], floats) && parse::fits(
                values[i],
                options.limits.max_depth as nat,
            ),
        is_accepted(emitter::stream_text(values, 0, floats.texts), options.limits),
    ensures
        api::documents(emitter::stream_text(values, 0, floats.texts), options, floats) == Ok::<
            Seq<Node>,
            Fault,
        >(values),
{
    assert forall|i: int| 0 <= i < values.len() implies comes_back(
        #[trigger] values[i],
        options,
        floats,
    ) by {
        lemma_parsed_survives(text, values, options, floats, i);
        compose::lemma_core_understands(options, values[i], floats);
    }
    law_parse_reads_what_emit_documents_wrote(values, options, floats);
}

} // verus!
