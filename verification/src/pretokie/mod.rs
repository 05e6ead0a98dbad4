//! Fast pretokenizers for BPE tokenizers.
//!
//! A pretokenizer cuts a text into consecutive, non-empty pieces.

pub mod algebra;
pub mod batch;
pub mod bert;
pub mod classes;
pub mod config;
pub mod configs;
pub mod joins;
pub mod mask;
pub mod rules;
pub mod scalar;
pub mod util;
