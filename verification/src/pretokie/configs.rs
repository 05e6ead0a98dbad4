//! Zero-sized config types for each BPE pretokenizer.
use super::config::{
    ContractionCase, ContractionMode, DigitMode, LetterMode, PretokConfig, PunctClass,
    PunctPrefixMode, PunctTrailing, WsException, WsPattern,
};
use vstd::prelude::*;

verus! {

/// GPT-2.
pub struct Gpt2Config;

impl PretokConfig for Gpt2Config {
    const CONTRACTION_CASE: ContractionCase = ContractionCase::Sensitive;

    const CONTRACTION_MODE: ContractionMode = ContractionMode::Standalone;

    const DIGIT_MODE: DigitMode = DigitMode::Unlimited;

    const LETTER_MODE: LetterMode = LetterMode::Plain;

    const SPACE_PREFIXES_DIGITS: bool = true;

    const WS_PATTERN: WsPattern = WsPattern::Gpt2;

    const PUNCT_TRAILING: PunctTrailing = PunctTrailing::Absent;

    const WS_EXCEPTION: WsException = WsException::Absent;

    const PUNCT_PREFIX_MODE: PunctPrefixMode = PunctPrefixMode::SpaceOnly;

    const PUNCT_CLASS: PunctClass = PunctClass::NegatedAlnum;
}

/// CL100K (GPT-3.5, GPT-4).
pub struct Cl100kConfig;

impl PretokConfig for Cl100kConfig {
    const CONTRACTION_CASE: ContractionCase = ContractionCase::Insensitive;

    const CONTRACTION_MODE: ContractionMode = ContractionMode::Standalone;

    const DIGIT_MODE: DigitMode = DigitMode::Chunked3;

    const LETTER_MODE: LetterMode = LetterMode::Plain;

    const SPACE_PREFIXES_DIGITS: bool = false;

    const WS_PATTERN: WsPattern = WsPattern::Cl100k;

    const PUNCT_TRAILING: PunctTrailing = PunctTrailing::Newlines;

    const WS_EXCEPTION: WsException = WsException::Absent;

    const PUNCT_PREFIX_MODE: PunctPrefixMode = PunctPrefixMode::Any;

    const PUNCT_CLASS: PunctClass = PunctClass::NegatedAlnum;
}

/// O200K (GPT-4o).
pub struct O200kConfig;

impl PretokConfig for O200kConfig {
    const CONTRACTION_CASE: ContractionCase = ContractionCase::Insensitive;

    const CONTRACTION_MODE: ContractionMode = ContractionMode::Suffix;

    const DIGIT_MODE: DigitMode = DigitMode::Chunked3;

    const LETTER_MODE: LetterMode = LetterMode::CamelCase;

    const SPACE_PREFIXES_DIGITS: bool = false;

    const WS_PATTERN: WsPattern = WsPattern::Cl100k;

    const PUNCT_TRAILING: PunctTrailing = PunctTrailing::NewlinesAndSlashes;

    const WS_EXCEPTION: WsException = WsException::Absent;

    const PUNCT_PREFIX_MODE: PunctPrefixMode = PunctPrefixMode::Any;

    const PUNCT_CLASS: PunctClass = PunctClass::NegatedAlnum;
}

/// Voyage.
pub struct VoyageConfig;

impl PretokConfig for VoyageConfig {
    const CONTRACTION_CASE: ContractionCase = ContractionCase::Insensitive;

    const CONTRACTION_MODE: ContractionMode = ContractionMode::Standalone;

    const DIGIT_MODE: DigitMode = DigitMode::Single;

    const LETTER_MODE: LetterMode = LetterMode::Plain;

    const SPACE_PREFIXES_DIGITS: bool = false;

    const WS_PATTERN: WsPattern = WsPattern::Cl100k;

    const PUNCT_TRAILING: PunctTrailing = PunctTrailing::Newlines;

    const WS_EXCEPTION: WsException = WsException::Absent;

    const PUNCT_PREFIX_MODE: PunctPrefixMode = PunctPrefixMode::Any;

    const PUNCT_CLASS: PunctClass = PunctClass::NegatedAlnum;
}

/// SmolLM.
pub struct SmolLMConfig;

impl PretokConfig for SmolLMConfig {
    const CONTRACTION_CASE: ContractionCase = ContractionCase::Sensitive;

    const CONTRACTION_MODE: ContractionMode = ContractionMode::Standalone;

    const DIGIT_MODE: DigitMode = DigitMode::Single;

    const LETTER_MODE: LetterMode = LetterMode::Plain;

    const SPACE_PREFIXES_DIGITS: bool = false;

    const WS_PATTERN: WsPattern = WsPattern::Gpt2;

    const PUNCT_TRAILING: PunctTrailing = PunctTrailing::Absent;

    const WS_EXCEPTION: WsException = WsException::Digits;

    const PUNCT_PREFIX_MODE: PunctPrefixMode = PunctPrefixMode::SpaceOnly;

    const PUNCT_CLASS: PunctClass = PunctClass::NegatedAlnum;
}

/// DeepSeek.
pub struct DeepSeekConfig;

impl PretokConfig for DeepSeekConfig {
    const CONTRACTION_CASE: ContractionCase = ContractionCase::Insensitive;

    const CONTRACTION_MODE: ContractionMode = ContractionMode::Absent;

    const DIGIT_MODE: DigitMode = DigitMode::Chunked3;

    const LETTER_MODE: LetterMode = LetterMode::PlainWithMarks;

    const SPACE_PREFIXES_DIGITS: bool = false;

    const WS_PATTERN: WsPattern = WsPattern::Cl100k;

    const PUNCT_TRAILING: PunctTrailing = PunctTrailing::Newlines;

    const WS_EXCEPTION: WsException = WsException::Cjk;

    const PUNCT_PREFIX_MODE: PunctPrefixMode = PunctPrefixMode::AsciiOnly;

    const PUNCT_CLASS: PunctClass = PunctClass::PunctSymbolOnly;
}

/// Qwen.
pub struct QwenConfig;

impl PretokConfig for QwenConfig {
    const CONTRACTION_CASE: ContractionCase = ContractionCase::Insensitive;

    const CONTRACTION_MODE: ContractionMode = ContractionMode::Standalone;

    const DIGIT_MODE: DigitMode = DigitMode::Single;

    const LETTER_MODE: LetterMode = LetterMode::PlainWithMarks;

    const SPACE_PREFIXES_DIGITS: bool = false;

    const WS_PATTERN: WsPattern = WsPattern::Cl100k;

    const PUNCT_TRAILING: PunctTrailing = PunctTrailing::Newlines;

    const WS_EXCEPTION: WsException = WsException::Absent;

    const PUNCT_PREFIX_MODE: PunctPrefixMode = PunctPrefixMode::Any;

    const PUNCT_CLASS: PunctClass = PunctClass::NegatedAlnum;
}

// ---- what the configs are ----

/// The rules of Gpt2.
pub proof fn law_gpt2_config()
    ensures
        Gpt2Config::CONTRACTION_CASE == ContractionCase::Sensitive,
        Gpt2Config::CONTRACTION_MODE == ContractionMode::Standalone,
        Gpt2Config::DIGIT_MODE == DigitMode::Unlimited,
        Gpt2Config::LETTER_MODE == LetterMode::Plain,
        Gpt2Config::SPACE_PREFIXES_DIGITS,
        Gpt2Config::WS_PATTERN == WsPattern::Gpt2,
        Gpt2Config::PUNCT_TRAILING == PunctTrailing::Absent,
        Gpt2Config::WS_EXCEPTION == WsException::Absent,
        Gpt2Config::PUNCT_PREFIX_MODE == PunctPrefixMode::SpaceOnly,
        Gpt2Config::PUNCT_CLASS == PunctClass::NegatedAlnum,
{
}

/// The rules of Cl100k.
pub proof fn law_cl100k_config()
    ensures
        Cl100kConfig::CONTRACTION_CASE == ContractionCase::Insensitive,
        Cl100kConfig::CONTRACTION_MODE == ContractionMode::Standalone,
        Cl100kConfig::DIGIT_MODE == DigitMode::Chunked3,
        Cl100kConfig::LETTER_MODE == LetterMode::Plain,
        !Cl100kConfig::SPACE_PREFIXES_DIGITS,
        Cl100kConfig::WS_PATTERN == WsPattern::Cl100k,
        Cl100kConfig::PUNCT_TRAILING == PunctTrailing::Newlines,
        Cl100kConfig::WS_EXCEPTION == WsException::Absent,
        Cl100kConfig::PUNCT_PREFIX_MODE == PunctPrefixMode::Any,
        Cl100kConfig::PUNCT_CLASS == PunctClass::NegatedAlnum,
{
}

/// The rules of O200k.
pub proof fn law_o200k_config()
    ensures
        O200kConfig::CONTRACTION_CASE == ContractionCase::Insensitive,
        O200kConfig::CONTRACTION_MODE == ContractionMode::Suffix,
        O200kConfig::DIGIT_MODE == DigitMode::Chunked3,
        O200kConfig::LETTER_MODE == LetterMode::CamelCase,
        !O200kConfig::SPACE_PREFIXES_DIGITS,
        O200kConfig::WS_PATTERN == WsPattern::Cl100k,
        O200kConfig::PUNCT_TRAILING == PunctTrailing::NewlinesAndSlashes,
        O200kConfig::WS_EXCEPTION == WsException::Absent,
        O200kConfig::PUNCT_PREFIX_MODE == PunctPrefixMode::Any,
        O200kConfig::PUNCT_CLASS == PunctClass::NegatedAlnum,
{
}

/// The rules of Voyage.
pub proof fn law_voyage_config()
    ensures
        VoyageConfig::CONTRACTION_CASE == ContractionCase::Insensitive,
        VoyageConfig::CONTRACTION_MODE == ContractionMode::Standalone,
        VoyageConfig::DIGIT_MODE == DigitMode::Single,
        VoyageConfig::LETTER_MODE == LetterMode::Plain,
        !VoyageConfig::SPACE_PREFIXES_DIGITS,
        VoyageConfig::WS_PATTERN == WsPattern::Cl100k,
        VoyageConfig::PUNCT_TRAILING == PunctTrailing::Newlines,
        VoyageConfig::WS_EXCEPTION == WsException::Absent,
        VoyageConfig::PUNCT_PREFIX_MODE == PunctPrefixMode::Any,
        VoyageConfig::PUNCT_CLASS == PunctClass::NegatedAlnum,
{
}

/// The rules of SmolLM.
pub proof fn law_smollm_config()
    ensures
        SmolLMConfig::CONTRACTION_CASE == ContractionCase::Sensitive,
        SmolLMConfig::CONTRACTION_MODE == ContractionMode::Standalone,
        SmolLMConfig::DIGIT_MODE == DigitMode::Single,
        SmolLMConfig::LETTER_MODE == LetterMode::Plain,
        !SmolLMConfig::SPACE_PREFIXES_DIGITS,
        SmolLMConfig::WS_PATTERN == WsPattern::Gpt2,
        SmolLMConfig::PUNCT_TRAILING == PunctTrailing::Absent,
        SmolLMConfig::WS_EXCEPTION == WsException::Digits,
        SmolLMConfig::PUNCT_PREFIX_MODE == PunctPrefixMode::SpaceOnly,
        SmolLMConfig::PUNCT_CLASS == PunctClass::NegatedAlnum,
{
}

/// The rules of DeepSeek.
pub proof fn law_deepseek_config()
    ensures
        DeepSeekConfig::CONTRACTION_CASE == ContractionCase::Insensitive,
        DeepSeekConfig::CONTRACTION_MODE == ContractionMode::Absent,
        DeepSeekConfig::DIGIT_MODE == DigitMode::Chunked3,
        DeepSeekConfig::LETTER_MODE == LetterMode::PlainWithMarks,
        !DeepSeekConfig::SPACE_PREFIXES_DIGITS,
        DeepSeekConfig::WS_PATTERN == WsPattern::Cl100k,
        DeepSeekConfig::PUNCT_TRAILING == PunctTrailing::Newlines,
        DeepSeekConfig::WS_EXCEPTION == WsException::Cjk,
        DeepSeekConfig::PUNCT_PREFIX_MODE == PunctPrefixMode::AsciiOnly,
        DeepSeekConfig::PUNCT_CLASS == PunctClass::PunctSymbolOnly,
{
}

/// The rules of Qwen.
pub proof fn law_qwen_config()
    ensures
        QwenConfig::CONTRACTION_CASE == ContractionCase::Insensitive,
        QwenConfig::CONTRACTION_MODE == ContractionMode::Standalone,
        QwenConfig::DIGIT_MODE == DigitMode::Single,
        QwenConfig::LETTER_MODE == LetterMode::PlainWithMarks,
        !QwenConfig::SPACE_PREFIXES_DIGITS,
        QwenConfig::WS_PATTERN == WsPattern::Cl100k,
        QwenConfig::PUNCT_TRAILING == PunctTrailing::Newlines,
        QwenConfig::WS_EXCEPTION == WsException::Absent,
        QwenConfig::PUNCT_PREFIX_MODE == PunctPrefixMode::Any,
        QwenConfig::PUNCT_CLASS == PunctClass::NegatedAlnum,
{
}

} // verus!
