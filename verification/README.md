# tokie

Tokenizers for large language models, verified with Verus.

A tokenizer normalizes a text, splits it into pieces, and encodes each piece
with byte pair encoding. It can be read from a `tokenizer.json` file, or from a
compiled `.tkz` file that needs no building.

## Layout

- `src/` is the library. Each executable function carries a contract that Verus
  proves; `src/lib.rs` lists the modules.
- `tests/` runs the library on concrete inputs, with the outside crates linked.
- `app/` is the command line program: arguments, files, downloads, worker
  threads, and the floating-point weights of the Unigram encoder.

## What is proved

- The pieces of the mask scanner are those of the scalar scanner, and they cover
  the text without gaps (`src/pretokie/`).
- The backtracking search gives the tokens that merging pair after pair gives,
  where each merge can happen (`src/encoder/merging.rs`).
- Which texts a vocabulary can encode: all of them, where every byte is a token
  (`src/tokenizer/model.rs`, `src/tokenizer/checked.rs`).
- The tokens of a text spell the text again; decoding undoes encoding
  (`src/encoder/backtracking.rs`, `src/tokenizer/laws.rs`).
- Offsets point, in the normalized text, at the bytes of the token they stand
  for (`src/tokenizer/laws.rs`).
- A saved tokenizer loads again, encodes and decodes alike. A file in which a
  byte behind the header was changed is refused, and so are other files out of
  order, with the error that fits (`src/serde/tkz.rs`).
- What a saved file holds of an encoder of any kind is read, or refused with the
  error that fits (`src/serde/parts.rs`).
- Added tokens cut a text into parts that leave nothing of it out
  (`src/added.rs`).
- Caches and batches change no result (`src/encoder/cache.rs`,
  `src/tokenizer/batch.rs`, `src/pool.rs`).

## What is taken on trust

The functions marked `#[verifier::external_body]` call an outside crate or a
function of the standard library, and their contracts are believed. Each one
names the function that it calls and says what is claimed of it. They stand in
`src/automaton.rs`, `src/chunks.rs`, `src/maps.rs`, `src/small.rs`,
`src/normalizer.rs`, `src/replace.rs`, `src/text.rs`, `src/hf/parse.rs` and next
to the code that needs them.
