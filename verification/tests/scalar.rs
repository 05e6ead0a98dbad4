//! Pieces of the scalar scanner.
use tokie::pretokie::configs::{
    Cl100kConfig, DeepSeekConfig, Gpt2Config, O200kConfig, QwenConfig, SmolLMConfig, VoyageConfig,
};
use tokie::pretokie::scalar::Core;

type Gpt2<'a> = Core<'a, Gpt2Config>;
type Cl100k<'a> = Core<'a, Cl100kConfig>;
type O200k<'a> = Core<'a, O200kConfig>;
type Voyage<'a> = Core<'a, VoyageConfig>;
type SmolLM<'a> = Core<'a, SmolLMConfig>;
type DeepSeek<'a> = Core<'a, DeepSeekConfig>;
type Qwen<'a> = Core<'a, QwenConfig>;

// GPT-2
#[test]
fn gpt2_basic() { assert_eq!(Gpt2::new("Hello world").pieces(), vec!["Hello", " world"]); }
#[test]
fn gpt2_punct() { assert_eq!(Gpt2::new("Hello, world!").pieces(), vec!["Hello", ",", " world", "!"]); }
#[test]
fn gpt2_numbers() { assert_eq!(Gpt2::new("test 123").pieces(), vec!["test", " 123"]); }
#[test]
fn gpt2_contraction() { assert_eq!(Gpt2::new("don't").pieces(), vec!["don", "'t"]); }
#[test]
fn gpt2_contraction_ll() { assert_eq!(Gpt2::new("I'll").pieces(), vec!["I", "'ll"]); }
#[test]
fn gpt2_contraction_ve() { assert_eq!(Gpt2::new("I've").pieces(), vec!["I", "'ve"]); }
#[test]
fn gpt2_contraction_re() { assert_eq!(Gpt2::new("we're").pieces(), vec!["we", "'re"]); }
#[test]
fn gpt2_space_digit() { assert_eq!(Gpt2::new("x 42").pieces(), vec!["x", " 42"]); }
#[test]
fn gpt2_double_newline() { assert_eq!(Gpt2::new("a\n\nb").pieces(), vec!["a", "\n", "\n", "b"]); }
#[test]
fn gpt2_newline_spaces() { assert_eq!(Gpt2::new("a\n  b").pieces(), vec!["a", "\n ", " b"]); }
#[test]
fn gpt2_multi_spaces() { assert_eq!(Gpt2::new("a  b").pieces(), vec!["a", " ", " b"]); }
#[test]
fn gpt2_space_punct() { assert_eq!(Gpt2::new("a <b").pieces(), vec!["a", " <", "b"]); }
#[test]
fn gpt2_triple_spaces() { assert_eq!(Gpt2::new("a   b").pieces(), vec!["a", "  ", " b"]); }

// CL100K
#[test]
fn cl100k_basic() { assert_eq!(Cl100k::new("Hello world").pieces(), vec!["Hello", " world"]); }
#[test]
fn cl100k_digits() { assert_eq!(Cl100k::new("12345").pieces(), vec!["123", "45"]); }
#[test]
fn cl100k_case_insensitive() { assert_eq!(Cl100k::new("DON'T").pieces(), vec!["DON", "'T"]); }
#[test]
fn cl100k_punct_prefix() { assert_eq!(Cl100k::new("$hello").pieces(), vec!["$hello"]); }
#[test]
fn cl100k_space_prefix() { assert_eq!(Cl100k::new("a b").pieces(), vec!["a", " b"]); }
#[test]
fn cl100k_newline() { assert_eq!(Cl100k::new("a\nb").pieces(), vec!["a", "\n", "b"]); }
#[test]
fn cl100k_space_newline() { assert_eq!(Cl100k::new("a \nb").pieces(), vec!["a", " \n", "b"]); }

// O200K
#[test]
fn o200k_basic() { assert_eq!(O200k::new("Hello world").pieces(), vec!["Hello", " world"]); }
#[test]
fn o200k_suffix() { assert_eq!(O200k::new("don't").pieces(), vec!["don't"]); }
#[test]
fn o200k_suffix_cases() {
    assert_eq!(O200k::new("DON'T").pieces(), vec!["DON'T"]);
    assert_eq!(O200k::new("I'm").pieces(), vec!["I'm"]);
    assert_eq!(O200k::new("we'll").pieces(), vec!["we'll"]);
}
#[test]
fn o200k_camelcase() {
    assert_eq!(O200k::new("CamelCase").pieces(), vec!["Camel", "Case"]);
    assert_eq!(O200k::new("JSONParser").pieces(), vec!["JSONParser"]);
    assert_eq!(O200k::new("parseJSON").pieces(), vec!["parse", "JSON"]);
    assert_eq!(O200k::new("XMLHttpRequest").pieces(), vec!["XMLHttp", "Request"]);
}
#[test]
fn o200k_digits() { assert_eq!(O200k::new("12345").pieces(), vec!["123", "45"]); }
#[test]
fn o200k_apost_prefix() { assert_eq!(O200k::new("'hello'").pieces(), vec!["'hello", "'"]); }

// Voyage
#[test]
fn voyage_basic() { assert_eq!(Voyage::new("Hello world").pieces(), vec!["Hello", " world"]); }
#[test]
fn voyage_single_digits() { assert_eq!(Voyage::new("12345").pieces(), vec!["1", "2", "3", "4", "5"]); }
#[test]
fn voyage_contractions() { assert_eq!(Voyage::new("don't").pieces(), vec!["don", "'t"]); }
#[test]
fn voyage_punct_prefix() { assert_eq!(Voyage::new("$hello").pieces(), vec!["$hello"]); }

// SmolLM
#[test]
fn smollm_basic() { assert_eq!(SmolLM::new("Hello world").pieces(), vec!["Hello", " world"]); }
#[test]
fn smollm_single_digits() { assert_eq!(SmolLM::new("12345").pieces(), vec!["1", "2", "3", "4", "5"]); }
#[test]
fn smollm_space_no_digit() {
    assert_eq!(SmolLM::new("test 123").pieces(), vec!["test", " ", "1", "2", "3"]);
    assert_eq!(SmolLM::new("a 1 b").pieces(), vec!["a", " ", "1", " b"]);
}
#[test]
fn smollm_contraction() { assert_eq!(SmolLM::new("don't").pieces(), vec!["don", "'t"]); }
#[test]
fn smollm_whitespace() {
    assert_eq!(SmolLM::new("a\n\nb").pieces(), vec!["a", "\n", "\n", "b"]);
    assert_eq!(SmolLM::new("a  b").pieces(), vec!["a", " ", " b"]);
}
#[test]
fn smollm_newline_digits() { assert_eq!(SmolLM::new("abc\n123").pieces(), vec!["abc", "\n", "1", "2", "3"]); }
#[test]
fn smollm_whitespace_before_unicode_digit() {
    // \s+(?=\p{N}) exception covers unicode numerics (½ U+00BD), not just ASCII digits
    assert_eq!(SmolLM::new("a\n\n½ cup").pieces(), vec!["a", "\n\n", "½", " cup"]);
    assert_eq!(SmolLM::new("x  ½").pieces(), vec!["x", "  ", "½"]);
}

// DeepSeek
#[test]
fn deepseek_basic() { assert_eq!(DeepSeek::new("Hello world").pieces(), vec!["Hello", " world"]); }
#[test]
fn deepseek_digits() { assert_eq!(DeepSeek::new("12345").pieces(), vec!["123", "45"]); }
#[test]
fn deepseek_contractions() {
    assert_eq!(DeepSeek::new("don't").pieces(), vec!["don", "'t"]);
    assert_eq!(DeepSeek::new("DON'T").pieces(), vec!["DON", "'T"]);
}
#[test]
fn deepseek_marks() { assert_eq!(DeepSeek::new("ก\u{0E31}น").pieces(), vec!["ก\u{0E31}น"]); }
#[test]
fn deepseek_format_chars_not_punct() {
    // DeepSeek's punct class is [\p{P}\p{S}]: Cf/Cc chars (ZWSP, soft hyphen,
    // C1 controls) are not punct — they act as the letter rule's optional
    // one-char prefix [^\r\n\p{L}\p{P}\p{S}]? or stand alone
    assert_eq!(DeepSeek::new("values \u{200B}\u{200B}that").pieces(), vec!["values", " ", "\u{200B}", "\u{200B}that"]);
    assert_eq!(DeepSeek::new("higher \u{AD}partic").pieces(), vec!["higher", " ", "\u{AD}partic"]);
    assert_eq!(DeepSeek::new("\u{200B}école").pieces(), vec!["\u{200B}école"]);
    assert_eq!(DeepSeek::new("a\u{80}\u{94}b").pieces(), vec!["a", "\u{80}", "\u{94}b"]);
}
#[test]
fn deepseek_nonascii_punct_no_letter_prefix() {
    // Non-ASCII \p{P}/\p{S} chars are excluded from the letter-prefix class;
    // only the ASCII punct list can prefix letters
    assert_eq!(DeepSeek::new("x «y").pieces(), vec!["x", " «", "y"]);
    assert_eq!(DeepSeek::new("«ab").pieces(), vec!["«", "ab"]);
}
#[test]
fn qwen_format_chars_are_punct() {
    // Qwen's negated class [^\s\p{L}\p{N}] DOES include Cf chars
    assert_eq!(Qwen::new("a \u{200B}b").pieces(), vec!["a", " \u{200B}", "b"]);
    assert_eq!(Qwen::new("x\u{AD}y").pieces(), vec!["x", "\u{AD}y"]);
}
#[test]
fn indic_marks_complete_table() {
    // Gujarati marks (U+0A81..U+0AFF) were missing from the hand-rolled mark
    // table; now generated complete. DeepSeek merges [\p{L}\p{M}]+ runs;
    // GPT-2's plain \p{L} splits at every mark (marks are punct there);
    // Voyage (Qwen3 dispatch) allows a one-char non-letter prefix.
    assert_eq!(DeepSeek::new("આફ્રિકા ખંડ").pieces(), vec!["આફ્રિકા", " ખંડ"]);
    assert_eq!(
        Gpt2::new("આફ્રિકા ખંડ").pieces(),
        vec!["આફ", "્", "ર", "િ", "ક", "ા", " ખ", "ં", "ડ"]
    );
    assert_eq!(Voyage::new("આફ્રિકા").pieces(), vec!["આફ", "્ર", "િક", "ા"]);
}
#[test]
fn deepseek_no_contraction_split() {
    // DeepSeek's pattern has no contraction rule; [punct][A-Za-z]+ takes ALL
    // following ASCII letters ("'Toole", "'ts"), and only ASCII ("l", "'", "été")
    assert_eq!(DeepSeek::new("O'Toole").pieces(), vec!["O", "'Toole"]);
    assert_eq!(DeepSeek::new("don'ts").pieces(), vec!["don", "'ts"]);
    assert_eq!(DeepSeek::new(".\n\n'The").pieces(), vec![".\n\n", "'The"]);
    assert_eq!(DeepSeek::new("l'été").pieces(), vec!["l", "'", "été"]);
}
#[test]
fn deepseek_punct_prefix() { assert_eq!(DeepSeek::new("$hello").pieces(), vec!["$hello"]); }

// Qwen
#[test]
fn qwen_basic() { assert_eq!(Qwen::new("Hello world").pieces(), vec!["Hello", " world"]); }
#[test]
fn qwen_single_digits() { assert_eq!(Qwen::new("12345").pieces(), vec!["1", "2", "3", "4", "5"]); }
#[test]
fn qwen_contractions() {
    assert_eq!(Qwen::new("don't").pieces(), vec!["don", "'t"]);
    assert_eq!(Qwen::new("DON'T").pieces(), vec!["DON", "'T"]);
}
#[test]
fn qwen_marks() { assert_eq!(Qwen::new("ก\u{0E31}น").pieces(), vec!["ก\u{0E31}น"]); }
#[test]
fn qwen_punct_prefix() { assert_eq!(Qwen::new("$hello").pieces(), vec!["$hello"]); }
#[test]
fn qwen_newline() {
    assert_eq!(Qwen::new("a\nb").pieces(), vec!["a", "\n", "b"]);
    assert_eq!(Qwen::new("a \nb").pieces(), vec!["a", " \n", "b"]);
}

// Unicode numerics: \p{N} covers No/Nl (¹ U+00B9, ❶ U+2776), not just ASCII digits
#[test]
fn gpt2_space_unicode_numeric() {
    assert_eq!(Gpt2::new("x ¹").pieces(), vec!["x", " ¹"]);
    assert_eq!(Gpt2::new("a ❶b").pieces(), vec!["a", " ❶", "b"]);
}
#[test]
fn gpt2_unicode_numeric_run() {
    assert_eq!(Gpt2::new("¹²³").pieces(), vec!["¹²³"]);
    assert_eq!(Gpt2::new("12¹").pieces(), vec!["12¹"]);
}
#[test]
fn cl100k_unicode_numeric_chunked() {
    assert_eq!(Cl100k::new("1¹23").pieces(), vec!["1¹2", "3"]);
}
#[test]
fn qwen_unicode_numeric_single() {
    assert_eq!(Qwen::new("1¹2").pieces(), vec!["1", "¹", "2"]);
    assert_eq!(Qwen::new(" ¹").pieces(), vec![" ", "¹"]);
}

// Multibyte punctuation must consume trailing newlines ([^\s\p{L}\p{N}]+[\r\n]*)
#[test]
fn qwen_multibyte_punct_trailing_newlines() {
    assert_eq!(Qwen::new("smart”\n\nM").pieces(), vec!["smart", "”\n\n", "M"]);
    assert_eq!(Qwen::new("you…\nA").pieces(), vec!["you", "…\n", "A"]);
    assert_eq!(Qwen::new("”\n \nx").pieces(), vec!["”\n", " \n", "x"]);
    assert_eq!(Qwen::new("”…\n\nx").pieces(), vec!["”…\n\n", "x"]);
    assert_eq!(Qwen::new("x«\n\ny").pieces(), vec!["x", "«\n\n", "y"]);
}
#[test]
fn cl100k_multibyte_punct_trailing_newlines() {
    assert_eq!(Cl100k::new("a”\n\nb").pieces(), vec!["a", "”\n\n", "b"]);
}
#[test]
fn gpt2_multibyte_punct_no_trailing() {
    // GPT-2 has no [\r\n]* suffix and punct never prefixes letters
    assert_eq!(Gpt2::new("x«\n\ny").pieces(), vec!["x", "«", "\n", "\n", "y"]);
    assert_eq!(Gpt2::new("«abc").pieces(), vec!["«", "abc"]);
    assert_eq!(Gpt2::new("«»").pieces(), vec!["«»"]);
}

// Contractions are not blocked by a following letter ('(?i:[sdmt]|ll|ve|re) has no lookahead)
#[test]
fn qwen_contraction_before_letter() {
    assert_eq!(Qwen::new("O'Toole").pieces(), vec!["O", "'T", "oole"]);
    assert_eq!(Qwen::new("don'ts").pieces(), vec!["don", "'t", "s"]);
    assert_eq!(Qwen::new("'Toole").pieces(), vec!["'T", "oole"]);
}
#[test]
fn gpt2_contraction_before_letter() {
    assert_eq!(Gpt2::new("don'ts").pieces(), vec!["don", "'t", "s"]);
}
#[test]
fn o200k_contraction_suffix_before_letter() {
    assert_eq!(O200k::new("don'ts").pieces(), vec!["don't", "s"]);
}
