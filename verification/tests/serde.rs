//! The binary tokenizer format.
use tokie::added::AddedTokenSpec;
use tokie::decoder::Decoder;
use tokie::encoder::backtracking::BacktrackingBytePairEncoder;
use tokie::encoder::Encoder;
use tokie::normalizer::Normalizer;
use tokie::postprocessor::PostProcessor;
use tokie::pretok::PretokType;
use tokie::serde::frame::HEADER_SIZE;
use tokie::serde::SerdeError;
use tokie::tokenizer::Tokenizer;
use tokie::types::TokenId;

#[test]
fn test_added_tokens_roundtrip() {
    let mut tok = make_test_tokenizer();
    tok.set_added_tokens(&[
        AddedTokenSpec { special: true, ..AddedTokenSpec::plain(300, b"<|special|>".to_vec()) },
        AddedTokenSpec {
            lstrip: true,
            rstrip: true,
            normalized: false,
            single_word: true,
            ..AddedTokenSpec::plain(301, b"<mask>".to_vec())
        },
    ]);
    tok.set_special_tokens(vec![("<|special|>".to_string(), 300)]);
    let loaded = Tokenizer::load(&tok.save()).unwrap();
    assert_eq!(loaded.added_tokens_raw(), tok.added_tokens_raw());
    assert_eq!(loaded.special_tokens(), tok.special_tokens());
    assert!(loaded.added_tokens_serialized(), "v13 files carry added tokens");
    assert_eq!(
        loaded.encode("ab<|special|>cd", false).ids,
        tok.encode("ab<|special|>cd", false).ids,
        "added-token splitting must survive the roundtrip"
    );
}

#[test]
fn test_no_added_tokens_roundtrip_flag() {
    let tok = make_test_tokenizer();
    let loaded = Tokenizer::load(&tok.save()).unwrap();
    assert!(loaded.added_tokens_raw().is_empty());
    assert!(loaded.added_tokens_serialized(), "empty section still marks the file authoritative");
}

#[test]
fn test_crc32() {
    assert_eq!(crc32fast::hash(b""), 0);
    assert_eq!(crc32fast::hash(b"hello"), crc32fast::hash(b"hello"));
    assert_ne!(crc32fast::hash(b"hello"), crc32fast::hash(b"world"));
}

#[test]
fn test_pretokenizer_type_roundtrip() {
    for typ in [
        PretokType::Absent,
        PretokType::Gpt2,
        PretokType::Cl100k,
        PretokType::O200k,
    ] {
        assert_eq!(PretokType::from_u32(typ.to_u32()), Some(typ));
    }
}

fn make_test_tokenizer() -> Tokenizer {
    let base_tokens: Vec<Vec<u8>> = (0u8..=255).map(|b| vec![b]).collect();
    let merges: Vec<(TokenId, TokenId)> = vec![
        (b'a' as u32, b'b' as u32), // ab
        (b'c' as u32, b'd' as u32), // cd
        (256, 257),                  // abcd
    ];
    let (encoder, token_bytes) = BacktrackingBytePairEncoder::from_merges(&merges, &base_tokens);
    let decoder = Decoder::new(&token_bytes);
    Tokenizer::new(Encoder::Backtracking(encoder), decoder, PretokType::Gpt2, Normalizer::Absent, PostProcessor::Absent)
}

#[test]
fn vocabulary_with_added_token_is_read_back() {
    // A token past the base range that no merge makes (such as gpt2's
    // <|endoftext|>) splits into itself; reading must not turn that into a
    // merge of the token with itself.
    let base_tokens: Vec<Vec<u8>> = (0u16..256).map(|b| vec![b as u8]).collect();
    let merges: Vec<(TokenId, TokenId)> = vec![
        (b'a' as u32, b'b' as u32), // 256 "ab"
        (256, b'c' as u32),         // 257 "abc"
    ];
    let added = vec![(258u32, b"<|endoftext|>".to_vec())];
    let (encoder, token_bytes) =
        BacktrackingBytePairEncoder::from_merges_with_added(&merges, &base_tokens, &added);
    let decoder = Decoder::new(&token_bytes);
    let tokenizer = Tokenizer::new(
        Encoder::Backtracking(encoder),
        decoder,
        PretokType::Gpt2,
        Normalizer::Absent,
        PostProcessor::Absent,
    );
    let loaded = Tokenizer::load(&tokenizer.save()).expect("load failed");
    assert_eq!(loaded.encode("abcab", false).ids, vec![257, 256]);
    assert_eq!(tokenizer.encode("abcab", false).ids, loaded.encode("abcab", false).ids);
    assert!(loaded.encoder().is_valid_pair(258, 258));
}

#[test]
fn test_rank_table_survives_roundtrip_with_added_token() {
    // Tokens past the base range that no merge made are their own splits; the
    // pairs that are rebuilt on loading must not hold one for them.
    let base_tokens: Vec<Vec<u8>> = (0u16..256).map(|b| vec![b as u8]).collect();
    let merges: Vec<(TokenId, TokenId)> = vec![
        (b'a' as u32, b'b' as u32), // 256 "ab"
        (256, b'c' as u32),         // 257 "abc"
    ];
    let added = vec![(258u32, b"<|endoftext|>".to_vec())];
    let (encoder, token_bytes) =
        BacktrackingBytePairEncoder::from_merges_with_added(&merges, &base_tokens, &added);
    let decoder = Decoder::new(&token_bytes);
    let tokenizer = Tokenizer::new(
        Encoder::Backtracking(encoder),
        decoder,
        PretokType::Gpt2,
        Normalizer::Absent,
        PostProcessor::Absent,
    );

    let loaded = Tokenizer::load(&tokenizer.save()).expect("load failed");

    let Encoder::Backtracking(enc) = loaded.encoder();
    assert!(enc.is_valid_pair(258, 258), "no pair of an added token merges");
    assert_eq!(
        tokenizer.encode("abcab", false).ids,
        loaded.encode("abcab", false).ids
    );
}

#[test]
fn test_save_load_roundtrip() {
    let tokenizer = make_test_tokenizer();

    // Save to memory buffer
    let buf = tokenizer.save();

    // Load from buffer
    let loaded = Tokenizer::load(&buf).expect("load failed");

    // Verify same vocab size
    assert_eq!(tokenizer.vocab_size(), loaded.vocab_size());

    // Verify encoding matches
    let test_texts = ["Hello world", "abcd", "test 123", "abcdabcd"];
    for text in test_texts {
        let original_tokens = tokenizer.encode(text, false).ids;
        let loaded_tokens = loaded.encode(text, false).ids;
        assert_eq!(
            original_tokens, loaded_tokens,
            "encoding mismatch for '{}'",
            text
        );
    }

    // Verify decoding matches
    let tokens = tokenizer.encode("Hello world", false).ids;
    let original_decoded = tokenizer.decode(&tokens);
    let loaded_decoded = loaded.decode(&tokens);
    assert_eq!(original_decoded, loaded_decoded);
}

#[test]
fn test_load_invalid_magic() {
    let mut bad_data = vec![0u8; HEADER_SIZE + 100];
    bad_data[0..4].copy_from_slice(b"BADM");
    let result = Tokenizer::load(&bad_data);
    assert!(matches!(result, Err(SerdeError::InvalidMagic)));
}

#[test]
fn test_load_unsupported_version() {
    let mut data = Vec::new();
    data.extend_from_slice(b"TOKI");
    data.extend_from_slice(&99u32.to_le_bytes()); // Bad version
    data.resize(HEADER_SIZE + 100, 0);

    let result = Tokenizer::load(&data);
    assert!(matches!(result, Err(SerdeError::UnsupportedVersion(99))));
}

#[test]
fn test_pad_token_id_roundtrip() {
    let mut tokenizer = make_test_tokenizer();
    tokenizer.set_pad_token_id(42);

    // Save to memory buffer
    let buf = tokenizer.save();

    // Load from buffer
    let loaded = Tokenizer::load(&buf).expect("load failed");

    assert_eq!(loaded.pad_token_id(), Some(42));
}

#[test]
fn test_pad_token_id_none_roundtrip() {
    let tokenizer = make_test_tokenizer();
    assert_eq!(tokenizer.pad_token_id(), None);

    let buf = tokenizer.save();

    let loaded = Tokenizer::load(&buf).expect("load failed");

    assert_eq!(loaded.pad_token_id(), None);
}
