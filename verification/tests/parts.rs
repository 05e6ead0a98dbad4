//! Parts of a tokenizer: vocabularies that lack bytes, tables that do not fit,
//! masks of classes, and settings.
use std::borrow::Cow;
use tokie::decoder::Decoder;
use tokie::encoder::backtracking::BacktrackingBytePairEncoder;
use tokie::encoder::Encoder;
use tokie::normalizer::{strip_accents, Normalizer};
use tokie::postprocessor::PostProcessor;
use tokie::pretok::{PretokType, Pretokenizer};
use tokie::pretokie::batch::classify_fold;
use tokie::pretokie::configs::{Cl100kConfig, DeepSeekConfig, O200kConfig};
use tokie::tokenizer::Tokenizer;

fn base() -> Vec<Vec<u8>> {
    (0u8..=255).map(|b| vec![b]).collect()
}

fn tokenizer(post: PostProcessor) -> Tokenizer {
    let (encoder, tokens) = BacktrackingBytePairEncoder::from_merges(&[(97, 98)], &base());
    Tokenizer::new(
        Encoder::Backtracking(encoder),
        Decoder::new(&tokens),
        PretokType::Gpt2,
        Normalizer::Absent,
        post,
    )
}

#[test]
fn bytes_that_no_text_holds_need_no_token() {
    let tokens: Vec<Vec<u8>> = base()
        .into_iter()
        .filter(|t| t[0] <= 0xf4 && t[0] != 0xc0 && t[0] != 0xc1)
        .collect();
    assert_eq!(tokens.len(), 243);
    let (encoder, tokens) = BacktrackingBytePairEncoder::from_merges(&[], &tokens);
    assert!(encoder.is_complete());
    let t = Tokenizer::new(
        Encoder::Backtracking(encoder),
        Decoder::new(&tokens),
        PretokType::Gpt2,
        Normalizer::Absent,
        PostProcessor::Absent,
    );
    let s = "a\u{7f}\u{80}\u{7ff}\u{800}\u{ffff}\u{10000}\u{10ffff}";
    let ids = t.encode_ids(s, false);
    assert_eq!(ids.len(), s.len());
    assert_eq!(t.decode(&ids).as_deref(), Some(s));
    assert_eq!(t.count_tokens(s), s.len());
}

#[test]
fn a_byte_of_texts_without_a_token_is_noticed() {
    for missing in [0u8, 0x7f, 0x80, 0xbf, 0xc2, 0xf4] {
        let tokens: Vec<Vec<u8>> = base().into_iter().filter(|t| t[0] != missing).collect();
        let (encoder, _) = BacktrackingBytePairEncoder::from_merges(&[], &tokens);
        assert!(!encoder.is_complete(), "{missing}");
    }
    for missing in [0xc0u8, 0xc1, 0xf5, 0xff] {
        let tokens: Vec<Vec<u8>> = base().into_iter().filter(|t| t[0] != missing).collect();
        let (encoder, _) = BacktrackingBytePairEncoder::from_merges(&[], &tokens);
        assert!(encoder.is_complete(), "{missing}");
    }
}

#[test]
fn tables_are_checked_against_the_tokens() {
    let (encoder, tokens) = BacktrackingBytePairEncoder::from_merges(&[(97, 98)], &base());
    assert!(encoder.checked(&tokens).is_some());
    let (encoder, mut tokens) = BacktrackingBytePairEncoder::from_merges(&[(97, 98)], &base());
    tokens[256] = b"ac".to_vec();
    assert!(encoder.checked(&tokens).is_none());
    let (encoder, mut tokens) = BacktrackingBytePairEncoder::from_merges(&[(97, 98)], &base());
    tokens.pop();
    assert!(encoder.checked(&tokens).is_none());
}

#[test]
fn tokenizers_are_checked_against_their_decoder() {
    assert!(tokenizer(PostProcessor::Absent).checked().is_some());
    let (encoder, mut tokens) = BacktrackingBytePairEncoder::from_merges(&[(97, 98)], &base());
    tokens[256] = b"ac".to_vec();
    let t = Tokenizer::new(
        Encoder::Backtracking(encoder),
        Decoder::new(&tokens),
        PretokType::Gpt2,
        Normalizer::Absent,
        PostProcessor::Absent,
    );
    assert!(t.checked().is_none());
}

#[test]
fn classes_are_folded_into_one_word() {
    let mut text = vec![b'.'; 64];
    assert_eq!(classify_fold::<Cl100kConfig>(&text, 0), 0);
    text[0] = b'a';
    text[1] = b'7';
    text[3] = b' ';
    text[5] = b'\'';
    text[63] = 0x80;
    assert_eq!(classify_fold::<Cl100kConfig>(&text, 0), 0b10_1011 | 1 << 63);
    // A lower-case letter is in two classes of camel-case configs, which see
    // slashes too; a space is in two classes where controls are seen.
    text[6] = b'/';
    text[7] = b'A';
    assert_eq!(classify_fold::<O200kConfig>(&text, 0), 0b1110_1010 | 1 << 63);
    assert_eq!(classify_fold::<DeepSeekConfig>(&text, 0), 0b1010_0011 | 1 << 63);
}

#[test]
fn sequences_are_decoded_one_by_one() {
    let t = tokenizer(PostProcessor::Absent);
    let sequences: [&[u32]; 3] = [&[256, 99], &[], &[0xff]];
    let got = t.decode_batch(&sequences);
    assert_eq!(got, vec![Some("abc".to_string()), Some(String::new()), None]);
    for (s, r) in sequences.iter().zip(&got) {
        assert_eq!(&t.decode(s), r);
    }
}

#[test]
fn the_pretokenizer_can_be_taken_out_and_put_back() {
    let (encoder, tokens) = BacktrackingBytePairEncoder::from_merges(&[(97, 32)], &base());
    let mut t = Tokenizer::new(
        Encoder::Backtracking(encoder),
        Decoder::new(&tokens),
        PretokType::Gpt2,
        Normalizer::Absent,
        PostProcessor::Absent,
    );
    assert_eq!(t.encode_ids("a b", false), vec![97, 32, 98]);
    t.set_pretokenizer(None);
    assert_eq!(t.encode_ids("a b", false), vec![256, 98]);
    t.set_pretokenizer(Some(Pretokenizer::Gpt2));
    assert_eq!(t.encode_ids("a b", false), vec![97, 32, 98]);
}

#[test]
fn special_tokens_are_counted() {
    let bert = tokenizer(PostProcessor::Bert { cls_token: 101, sep_token: 102 });
    assert_eq!(bert.num_special_tokens_to_add(false), 2);
    assert_eq!(bert.num_special_tokens_to_add(true), 3);
    let n = bert.encode_ids("ab", true).len() - bert.encode_ids("ab", false).len();
    assert_eq!(n, 2);
    let plain = tokenizer(PostProcessor::Absent);
    assert_eq!(plain.num_special_tokens_to_add(false), 0);
    assert_eq!(plain.num_special_tokens_to_add(true), 0);
}

#[test]
fn accents_are_stripped() {
    assert!(matches!(strip_accents("plain"), Cow::Borrowed("plain")));
    assert_eq!(strip_accents("caf\u{e9}"), "cafe");
    assert_eq!(strip_accents("\u{fc}ber e\u{301}"), "uber e");
    assert_eq!(strip_accents("\u{4f60}"), "\u{4f60}");
}
