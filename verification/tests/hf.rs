//! Reading of HuggingFace tokenizer descriptions.
use tokie::hf::json::Json;
use tokie::hf::pretokenizer::detect_pretokenizer_type;
use tokie::hf::tokens::decode_bytelevel_token;
use tokie::pretok::PretokType;

fn text(s: &str) -> Json {
    Json::Text(s.to_string())
}

fn object(entries: Vec<(&str, Json)>) -> Json {
    Json::Object(entries.into_iter().map(|(k, v)| (k.to_string(), v)).collect())
}

fn split_stage(pattern: &str) -> Json {
    object(vec![
        ("type", text("Split")),
        ("pattern", object(vec![("Regex", text(pattern))])),
        ("behavior", text("Isolated")),
        ("invert", Json::Bool(false)),
    ])
}

fn byte_level_stage() -> Json {
    object(vec![
        ("type", text("ByteLevel")),
        ("add_prefix_space", Json::Bool(false)),
        ("trim_offsets", Json::Bool(true)),
        ("use_regex", Json::Bool(false)),
    ])
}

fn sequence(stages: Vec<Json>) -> Json {
    object(vec![(
        "pre_tokenizer",
        object(vec![("type", text("Sequence")), ("pretokenizers", Json::List(stages))]),
    )])
}

#[test]
fn test_detect_deepseek_multi_stage_splits() {
    // DeepSeek-V3 puts \p{N}{1,3} in its own Split stage, separate from the
    // [\p{L}\p{M}]+ letter pattern: detection must consider all stages.
    let data = sequence(vec![
        split_stage("\\p{N}{1,3}"),
        split_stage("[\u{4e00}-\u{9fa5}\u{3040}-\u{309f}\u{30a0}-\u{30ff}]+"),
        split_stage("[!\"#$%&'()*+,\\-./:;<=>?@\\[\\\\\\]^_`{|}~][A-Za-z]+|[^\r\n\\p{L}\\p{P}\\p{S}]?[\\p{L}\\p{M}]+| ?[\\p{P}\\p{S}]+[\r\n]*|\\s*[\r\n]+|\\s+(?!\\S)|\\s+"),
        byte_level_stage(),
    ]);
    assert_eq!(detect_pretokenizer_type(&data).pretok_type, PretokType::DeepSeek);
}

#[test]
fn test_detect_qwen35_single_stage_single_digits() {
    // Qwen3.5-style: one Split with [\p{L}\p{M}]+ and single \p{N} stays Qwen35.
    let data = sequence(vec![
        split_stage("(?i:'s|'t|'re|'ve|'m|'ll|'d)|[^\r\n\\p{L}\\p{N}]?[\\p{L}\\p{M}]+|\\p{N}| ?[^\\s\\p{L}\\p{N}]+[\r\n]*|\\s*[\r\n]+|\\s+(?!\\S)|\\s+"),
        byte_level_stage(),
    ]);
    assert_eq!(detect_pretokenizer_type(&data).pretok_type, PretokType::Qwen35);
}

#[test]
fn test_decode_bytelevel_token_ascii() {
    // Simple ASCII characters should decode to themselves
    assert_eq!(decode_bytelevel_token("Hello"), b"Hello".to_vec());
    assert_eq!(decode_bytelevel_token("world"), b"world".to_vec());
}

#[test]
fn test_decode_bytelevel_token_space() {
    // Space (byte 32) is encoded as U+0120 (Ġ)
    assert_eq!(decode_bytelevel_token("Ġ"), vec![32]);
    assert_eq!(decode_bytelevel_token("Ġhello"), vec![32, 104, 101, 108, 108, 111]);
}

#[test]
fn test_decode_bytelevel_token_newline() {
    // Newline (byte 10) is encoded as U+010A (Ċ)
    assert_eq!(decode_bytelevel_token("Ċ"), vec![10]);
}

#[test]
fn test_decode_bytelevel_token_tab() {
    // Tab (byte 9) is encoded as U+0109 (ĉ)
    assert_eq!(decode_bytelevel_token("ĉ"), vec![9]);
}

#[test]
fn test_decode_bytelevel_token_punctuation() {
    // Punctuation in printable ASCII range should decode directly
    assert_eq!(decode_bytelevel_token(","), vec![44]);
    assert_eq!(decode_bytelevel_token("."), vec![46]);
    assert_eq!(decode_bytelevel_token("!"), vec![33]);
}
