//! HuggingFace tokenizer.json loading support.
use crate::encoder::EncoderType;
use vstd::prelude::*;

pub mod json;
pub mod load;
pub mod merges;
pub mod models;
pub mod normalizer;
pub mod parse;
pub mod pretokenizer;
pub mod special;
pub mod tokens;

verus! {

/// Error loading from HuggingFace JSON format.
#[derive(Debug, PartialEq, Eq)]
pub enum JsonLoadError {
    /// The text is no JSON.
    Json,
    InvalidFormat(&'static str),
    /// The file asks for an encoder that this library has no place for.
    UnsupportedEncoder(EncoderType),
}

} // verus!
