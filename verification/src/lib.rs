//! Tokenizers for large language models: pretokenization, normalization,
//! encoding, post-processing and the compiled tokenizer file format.
//!
//! Every executable function of this crate is verified against the contract
//! written above it. The modules are:
//!
//! - [`pretokie`] and [`pretok`]: splitting text into pieces. The rules say
//!   where a piece ends; the scalar scanner and the mask scanner both follow
//!   them.
//! - [`normalizer`], [`charsmap`] and [`replace`]: what is done to a text before
//!   it is encoded.
//! - [`encoder`]: from bytes to tokens. The search of the backtracking encoder
//!   finds what merging pair after pair finds.
//! - [`decoder`] and [`postprocessor`]: from tokens back to text, and the
//!   special tokens around sequences.
//! - [`added`] and [`automaton`]: texts that are tokens of their own, and the
//!   matchers that find them.
//! - [`padding`]: encodings, and how they are cut and filled to a length.
//! - [`tokenizer`]: all of these together, for single texts and for many, and
//!   the laws that hold of the whole.
//! - [`hf`] and [`hub`]: tokenizers of `tokenizer.json` files, and where such
//!   files are found.
//! - [`serde`]: the compiled file format.
//! - [`laws`]: what all of these are for, stated over their inputs and results.
//! - [`pool`]: which cache a worker gets, and which documents.
//! - [`bits`], [`bytes`], [`chunks`], [`hash`], [`maps`], [`order`], [`small`],
//!   [`text`] and [`types`]: what the others are built from.

pub mod added;
pub mod automaton;
pub mod bits;
pub mod bytes;
pub mod charsmap;
pub mod chunks;
pub mod decoder;
pub mod encoder;
pub mod hash;
pub mod hf;
pub mod hub;
pub mod laws;
pub mod maps;
pub mod normalizer;
pub mod order;
pub mod padding;
pub mod pool;
pub mod postprocessor;
pub mod pretok;
pub mod pretokie;
pub mod replace;
pub mod serde;
pub mod small;
pub mod text;
pub mod tokenizer;
pub mod types;
