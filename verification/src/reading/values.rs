//! From texts to values.

use crate::api;
use crate::composer::meaning;
use crate::composer::meaning::Tree;
use crate::composer::model::Context;
use crate::error::Fault;
use crate::event::{Ev, Happening};
use crate::floats::Floats;
use crate::node::Node;
use crate::options::ParseOptions;
use crate::parser;
use crate::parser::grammar;
use crate::parser::spelled;
use crate::parser::spelled::{Paper, Part};
use crate::reading::documents;
use crate::reading::steps;
use crate::reading::words;
use crate::reading::words::{Piece, Word};
use crate::roundtrip::compose;
use crate::roundtrip::parse;
use crate::roundtrip::scan;
use crate::scalar;
use crate::scanner::model;
use crate::scanner::reader;
use crate::scanner::token::{Lexeme, Tok};
use vstd::prelude::*;

verus! {

/// The number that a scalar asks for, if it asks for one, is known.
pub open spec fn is_known(w: Word, options: ParseOptions, floats: Floats) -> bool {
    scalar::is_float(words::word_value(w), words::word_style(w), options.schema)
        ==> floats.bits.contains_key(words::word_value(w))
}

/// What a scalar resolves to.
pub open spec fn word_node(w: Word, options: ParseOptions, floats: Floats) -> Node {
    let value = words::word_value(w);
    let style = words::word_style(w);
    let bits = if scalar::is_float(value, style, options.schema) {
        floats.bits[value]
    } else {
        0
    };
    scalar::resolved(value, style, options.schema, bits)
}

/// A scalar of any style, a colon, a space and a scalar of any style.
pub open spec fn pair_text(k: Word, v: Word) -> Seq<char> {
    words::word_text(k) + seq![':', ' '] + words::word_text(v)
}

spec fn word_part(w: Word) -> Part {
    Part::Scalar(spelled::plain(), words::word_value(w), words::word_style(w))
}

spec fn word_tree(w: Word) -> Tree {
    Tree::Scalar(
        meaning::Props { anchor: None, tag: None },
        words::word_value(w),
        words::word_style(w),
    )
}

/// A piece alone.
proof fn lemma_one_piece(w: Word)
    ensures
        steps::pieces_text(seq![Piece::Word(w)], 0) == words::word_text(w),
        steps::pieces_lexemes(seq![Piece::Word(w)], 0) == seq![words::word_lexeme(w)],
{
    reveal_with_fuel(steps::pieces_text, 2);
    reveal_with_fuel(steps::pieces_lexemes, 2);
    let ps = seq![Piece::Word(w)];
    assert(steps::pieces_text(ps, 1) == Seq::<char>::empty());
    assert(steps::pieces_text(ps, 0) == words::word_text(w));
    assert(steps::pieces_lexemes(ps, 0) == seq![words::word_lexeme(w)]);
}

proof fn lemma_tokens_at(ts: Seq<Tok>, ks: Seq<Lexeme>)
    requires
        scan::kinds(ts) == ks,
    ensures
        parse::tokens_at(ts, 0, ks),
{
    assert(ks.len() == ts.len());
    assert forall|k: int| 0 <= k < ks.len() implies ts[0 + k].kind == #[trigger] ks[k] by {
        assert(scan::kinds(ts)[k] == ks[k]);
    }
}

proof fn lemma_events_at(evs: Seq<Ev>, hs: Seq<Happening>)
    requires
        parse::kinds(evs) == hs,
    ensures
        compose::events_at(evs, 0, hs),
{
    assert(hs.len() == evs.len());
    assert forall|k: int| 0 <= k < hs.len() implies evs[0 + k].kind == #[trigger] hs[k] by {
        assert(parse::kinds(evs)[k] == hs[k]);
    }
}

/// The spelling of a pair.
spec fn pair_part(k: Word, v: Word) -> Part {
    Part::Mapping(spelled::plain(), seq![(word_part(k), true, word_part(v))])
}

proof fn lemma_pair_spelling(k: Word, v: Word)
    ensures
        spelled::lexemes(pair_part(k, v)) == seq![
            Lexeme::BlockMappingStart,
            Lexeme::Key,
            words::word_lexeme(k),
            Lexeme::Value,
            words::word_lexeme(v),
            Lexeme::BlockEnd,
        ],
        spelled::happenings(pair_part(k, v)) == meaning::events(pair_tree(k, v)),
        spelled::is_part(pair_part(k, v), false),
        spelled::fits(pair_part(k, v), 1),
{
    reveal_with_fuel(spelled::lexemes, 3);
    reveal_with_fuel(spelled::entries_lexemes, 3);
    reveal_with_fuel(spelled::happenings, 3);
    reveal_with_fuel(spelled::entries_happenings, 3);
    reveal_with_fuel(meaning::events, 3);
    reveal_with_fuel(meaning::entries_events, 3);
    reveal_with_fuel(spelled::is_part, 3);
    reveal_with_fuel(spelled::fits, 3);
    let entries = seq![(word_part(k), true, word_part(v))];
    assert(spelled::entries_lexemes(entries, 1) == Seq::<Lexeme>::empty());
    assert(spelled::lexemes(word_part(k)) == seq![words::word_lexeme(k)]);
    assert(spelled::lexemes(word_part(v)) == seq![words::word_lexeme(v)]);
    assert(spelled::entries_happenings(entries, 1) == Seq::<Happening>::empty());
    let pairs = seq![(word_tree(k), word_tree(v))];
    assert(meaning::entries_events(pairs, 1) == Seq::<Happening>::empty());
    assert(spelled::entries_happenings(entries, 0) =~= meaning::entries_events(pairs, 0));
}

/// The tree of a pair.
spec fn pair_tree(k: Word, v: Word) -> Tree {
    Tree::Mapping(
        meaning::Props { anchor: None, tag: None },
        seq![(word_tree(k), word_tree(v))],
    )
}

proof fn lemma_pair_value(k: Word, v: Word, options: ParseOptions, floats: Floats)
    requires
        is_known(k, options, floats),
        is_known(v, options, floats),
        !meaning::is_merge(options, word_tree(k)),
    ensures
        meaning::documents_value(
            Context { options, floats: floats.bits },
            seq![pair_tree(k, v)],
            0,
            0,
            Seq::empty(),
        ) == Some(
            seq![
                Node::Mapping(
                    seq![(word_node(k, options, floats), word_node(v, options, floats))],
                ),
            ],
        ),
{
    reveal_with_fuel(meaning::documents_value, 3);
    reveal_with_fuel(meaning::value, 3);
    reveal_with_fuel(meaning::entries_value, 3);
    reveal_with_fuel(meaning::complete, 2);
    let none = Seq::<(Node, Node)>::empty();
    let kn = word_node(k, options, floats);
    let vn = word_node(v, options, floats);
    assert(!meaning::has_key(none, kn));
    assert(meaning::assigned(none, kn, vn) == seq![(kn, vn)]);
    let had = Seq::<Node>::empty();
    let n = Node::Mapping(seq![(kn, vn)]);
    assert(had.push(n) == seq![n]);
}

/// A text of one key and one value, each of any style, is a mapping of what the key resolves
/// to to what the value resolves to, unless the key asks for a merge.
pub proof fn law_pairs_are_read(k: Word, v: Word, options: ParseOptions, floats: Floats)
    requires
        words::is_word(k),
        words::is_word(v),
        steps::begins_key(words::word_text(k)[0]),
        is_known(k, options, floats),
        is_known(v, options, floats),
        k != Word::Plain(seq!['<', '<']),
        options.limits.max_depth >= 1,
        reader::byte_offset(pair_text(k, v), pair_text(k, v).len() as int)
            <= options.limits.max_input_bytes,
    ensures
        api::documents(pair_text(k, v), options, floats) == Ok::<Seq<Node>, Fault>(
            seq![
                Node::Mapping(
                    seq![(word_node(k, options, floats), word_node(v, options, floats))],
                ),
            ],
        ),
{
    let text = pair_text(k, v);
    let key = seq![Piece::Word(k)];
    let value = seq![Piece::Word(v)];
    lemma_one_piece(k);
    lemma_one_piece(v);
    documents::law_pairs_are_scanned(key, value, options.limits);
    let ts = model::tokens(text, options.limits)->Ok_0;
    lemma_pair_spelling(k, v);
    let ds = seq![Paper { marked: false, root: pair_part(k, v), ended: false }];
    let part = pair_part(k, v);
    reveal_with_fuel(spelled::papers_lexemes, 2);
    reveal_with_fuel(spelled::papers_happenings, 2);
    assert(spelled::papers_lexemes(ds, 1) == Seq::<Lexeme>::empty());
    let ks = seq![Lexeme::StreamStart] + (spelled::papers_lexemes(ds, 0) + seq![
        Lexeme::StreamEnd,
    ]);
    assert(scan::kinds(ts) =~= ks);
    lemma_tokens_at(ts, ks);
    let room = options.limits.max_depth as nat;
    lemma_room(part, room);
    spelled::law_spelled_documents_are_parsed(ts, room, ds);
    let evs = grammar::stream(ts, room)->Ok_0;
    let trees = seq![pair_tree(k, v)];
    reveal_with_fuel(meaning::documents_events, 2);
    assert(meaning::documents_events(trees, 1) == Seq::<Happening>::empty());
    assert(spelled::papers_happenings(ds, 1) == Seq::<Happening>::empty());
    let hs = seq![Happening::StreamStart] + (meaning::documents_events(trees, 0) + seq![
        Happening::StreamEnd,
    ]);
    assert(parse::kinds(evs) =~= hs);
    lemma_events_at(evs, hs);
    let ctx = Context { options, floats: floats.bits };
    meaning::law_documents_are_composed(ctx, evs, trees);
    lemma_pair_value(k, v, options, floats);
    assert(parser::events(text, options) == Ok::<Seq<Ev>, Fault>(evs));
}

/// More room is enough too.
proof fn lemma_room(p: Part, room: nat)
    requires
        room >= 1,
        p matches Part::Mapping(_, entries) && entries.len() == 1 && entries[0].0 is Scalar
            && entries[0].2 is Scalar,
    ensures
        spelled::fits(p, room),
{
    reveal_with_fuel(spelled::fits, 3);
}

} // verus!
