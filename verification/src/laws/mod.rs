//! What the operations of the library are for, stated over all their inputs:
//! how results relate to what was put in, and to the results of other calls.
//!
//! - [`pieces`] and [`pretokenizers`]: where texts are cut, by their characters.
//! - [`normalizing`] and [`spacing`]: what becomes of characters and of spaces.
//! - [`encoding`] and [`paths`]: from a text to its tokens.
//! - [`framing`] and [`cutting`]: special tokens, and how many tokens stay.
//! - [`decoding`]: from tokens back to a text.
//! - [`finding`] and [`naming`]: texts inside texts, and what models are called.
//! - [`detecting`], [`reading`] and [`loading`]: what a tokenizer file says.
//! - [`storing`]: how a tokenizer is laid out in its own file.
pub mod cutting;
pub mod decoding;
pub mod detecting;
pub mod encoding;
pub mod finding;
pub mod framing;
pub mod loading;
pub mod naming;
pub mod normalizing;
pub mod paths;
pub mod pieces;
pub mod pretokenizers;
pub mod reading;
pub mod spacing;
pub mod storing;
