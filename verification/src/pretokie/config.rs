//! Configuration trait and dimension enums for BPE pretokenizers.
use vstd::prelude::*;

verus! {

/// Whether a contraction suffix is recognised in either case.
#[derive(Clone, Copy, PartialEq, Eq, Structural)]
pub enum ContractionCase {
    Sensitive,
    Insensitive,
}

/// Where a contraction goes.
#[derive(Clone, Copy, PartialEq, Eq, Structural)]
pub enum ContractionMode {
    /// The contraction is a piece of its own.
    Standalone,
    /// The contraction stays attached to the word before it.
    Suffix,
    /// No contraction rule in the pattern (DeepSeek): apostrophe and letters
    /// are handled by the punct-prefix rule instead.
    Absent,
}

/// How many numerics one piece holds.
#[derive(Clone, Copy, PartialEq, Eq, Structural)]
pub enum DigitMode {
    Unlimited,
    Chunked3,
    Single,
}

/// Which characters continue a word.
#[derive(Clone, Copy, PartialEq, Eq, Structural)]
pub enum LetterMode {
    Plain,
    PlainWithMarks,
    CamelCase,
}

/// The whitespace alternative of the pattern.
#[derive(Clone, Copy, PartialEq, Eq, Structural)]
pub enum WsPattern {
    Gpt2,
    Cl100k,
}

/// What a punctuation group consumes after its last punctuation character.
#[derive(Clone, Copy, PartialEq, Eq, Structural)]
pub enum PunctTrailing {
    Absent,
    Newlines,
    NewlinesAndSlashes,
}

/// What a whitespace run stays whole in front of.
#[derive(Clone, Copy, PartialEq, Eq, Structural)]
pub enum WsException {
    Absent,
    Digits,
    Cjk,
}

/// Which characters may prefix a word.
#[derive(Clone, Copy, PartialEq, Eq, Structural)]
pub enum PunctPrefixMode {
    SpaceOnly,
    Any,
    AsciiOnly,
}

/// The punctuation class of the pattern.
#[derive(Clone, Copy, PartialEq, Eq, Structural)]
pub enum PunctClass {
    /// Negated class like `[^\s\p{L}\p{N}]`, with format, control and private use characters.
    NegatedAlnum,
    /// Positive class `[\p{P}\p{S}]` (DeepSeek), without format and control characters.
    PunctSymbolOnly,
}

/// The choices that make up one pretokenizer.
pub trait PretokConfig {
    const CONTRACTION_CASE: ContractionCase;

    const CONTRACTION_MODE: ContractionMode;

    const DIGIT_MODE: DigitMode;

    const LETTER_MODE: LetterMode;

    const SPACE_PREFIXES_DIGITS: bool;

    const WS_PATTERN: WsPattern;

    const PUNCT_TRAILING: PunctTrailing;

    const WS_EXCEPTION: WsException;

    const PUNCT_PREFIX_MODE: PunctPrefixMode;

    const PUNCT_CLASS: PunctClass = PunctClass::NegatedAlnum;
}

} // verus!
