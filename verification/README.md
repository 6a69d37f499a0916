# yaml2

A YAML 1.2 parser and emitter whose library is verified with Verus.

## Layout

- `src/` is the library. Every item of it is verified, but for those that stand for
  outside code (see below).
  - `scanner/`: text to tokens. `model.rs` is the scanner as a mathematical state
    machine, `laws.rs`, `flow.rs` and `order.rs` what holds of every scan, `pull.rs` that
    tokens taken one by one are those of the whole text, `alike.rs` and `endings.rs` that line
    ends and a leading comment make no difference.
  - `parser/`: tokens to events. `grammar.rs` says which events the tokens stand for,
    `shape.rs` that events form whole, balanced streams, `leaves.rs` that they keep the
    scalars and aliases, `swap.rs` that an anchor and a tag may come in either order,
    `limits.rs` that higher limits change no success.
  - `composer/`: events to values, with aliases and merge keys.
  - `value.rs` and `node.rs`: the value tree and its mathematical reading.
  - `scalar.rs`: which value a plain scalar stands for, by schema.
  - `emitter.rs`: values to text.
  - `roundtrip/`: what is written is what is read back.
  - `serde_support/`: building values piece by piece and taking them apart.
  - `api.rs`: source text to values and back.
- `tests/` runs the library on concrete inputs.
- `app/` is ordinary Rust around it: serde's traits and floating point.

## Floats

The library holds a float by its bits. Which number a decimal text writes, and which
text a number is shown as, comes from a `FloatTable` that the caller fills:
`composer::float_texts` and `emitter::finite_floats` say what it has to know.

## What is believed

The proofs rest on these items, whose contracts describe code outside the library:

- `value::Mapping` holds an `indexmap::IndexMap`, with the names `entries_of` and
  `marks_of` for what it holds; its methods `new`, `insert`, `get`, `get_mut`, `len`,
  `iter`, `iter_mut` and `into_iter` call the methods of that map.
- `value::hash_numbers` feeds numbers to a hasher.
- `text::debug_string` formats a string with `Debug`, with the name `debug_text` for
  the result.
- `String::push` and `char::from_u32` of the standard library are specified in
  `text.rs`.
