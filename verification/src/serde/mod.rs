//! Binary serialization for fast tokenizer loading.
//!
//! A file holds the pre-built automaton, so that loading need not rebuild it.
//!
//! ```text
//! Header (96 bytes; 88 before version 13):
//!   - magic: "TOKI"
//!   - version, encoder type, pretokenizer type, normalizer type,
//!     post-processor type, vocabulary size, number of merges, number of base
//!     tokens, pad token id (0xFFFFFFFF = none; version 11 on): u32 each
//!   - for each section its offset and its checksum, u32 each
//!
//! Sections:
//!   - TOKEN_DATA: the decoder's flat buffer (offsets and data)
//!   - MERGE_DATA: the split table
//!   - DAAC_DATA: the pre-built automaton
//!   - PREFIX_DATA: the table of next prefix matches
//!   - PP_DATA: post-processor parameters
//!   - CHARSMAP_DATA: the precompiled charsmap (version 12 on)
//!   - ADDED_TOKENS: added and special tokens (version 13 on)
//! ```
use vstd::prelude::*;

pub mod added_section;
pub mod codec;
pub mod configs;
pub mod frame;
pub mod lookups;
pub mod parts;
pub mod post;
pub mod tkz;

verus! {

/// Why a file cannot be read.
#[derive(Debug, PartialEq, Eq)]
pub enum SerdeError {
    /// It does not start with the magic bytes.
    InvalidMagic,
    UnsupportedVersion(u32),
    InvalidEncoderType(u32),
    InvalidPretokenizer(u32),
    InvalidNormalizer(u32),
    InvalidPostProcessor(u32),
    ChecksumMismatch { section: &'static str },
    InvalidData(&'static str),
}

} // verus!
