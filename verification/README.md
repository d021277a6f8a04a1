# bash_strings

Bash has a serialisation format of its own: what `printf %q`, `${var@Q}` and
`declare -p` write, and what `declare -a arr="$word"` reads back. This crate
is the Rust side of that format, written in Verus: every parser and emitter
carries a contract that states what it returns for every input, short of
texts too long for the machine's integers, and Verus proves it.

The parsers accept the forms bash writes and refuse everything else, with the
offset where they stopped. The emitters are canonical: one value produces one
word, and the crate proves that reading the word back gives the value.

## Layout

- `src/text.rs` — characters, their UTF-8 widths, byte offsets, snippets.
- `src/grammar.rs` — bash's word grammar as spec functions over characters.
- `src/quoting.rs` — `Cursor` and `parse_with`: the word lexer, with stop
  characters chosen by the caller.
- `src/parser.rs`, `src/emit.rs` — scalar, q_words, array, indexed and
  associative forms, read and written.
- `src/codec.rs` — `BashVal`, `Schema`, and the `QuotedNest` and `LinkedArr`
  codecs for values of any depth.
- `src/primitives.rs`, `src/raw.rs` — the single-word level and `BashRaw`,
  bash's three native variable shapes, with their literals and packing.
- `src/typed.rs` — `parse_typed_value` and `BashValue`: a variable's `@Q`
  output read by its declared type.
- `src/index_map.rs` — `indexmap::IndexMap` as the contracts see it: its
  entries in order, and what an insertion does to them.
- `src/laws.rs`, `src/codec_laws.rs` — the round trips: what each reader
  gives back of what its writer wrote.
- `app/lib.rs` — copies of the error types that implement `Display` and
  `std::error::Error`.
