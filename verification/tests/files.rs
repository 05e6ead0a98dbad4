//! Tokenizer files and tokenizer descriptions, in order and out of it.
use tokie::decoder::{Decoder, DecoderType, VocabDecoder};
use tokie::encoder::backtracking::BacktrackingBytePairEncoder;
use tokie::encoder::unigram::UnigramEncoder;
use tokie::encoder::{Encoder, EncoderType};
use tokie::hf::json::Json;
use tokie::hf::load::{fallback_patterns, from_json_value};
use tokie::hf::parse::{
    from_json_str, from_json_str_with_options, from_json_str_with_pretokenizer, parse_json,
};
use tokie::hf::models::{load_unigram, load_wordpiece};
use tokie::hf::normalizer::detect_normalizer;
use tokie::hf::tokens::{decode_sentencepiece_token, parse_byte_fallback_token};
use tokie::hf::JsonLoadError;
use tokie::normalizer::Normalizer;
use tokie::postprocessor::PostProcessor;
use tokie::pretok::PretokType;
use tokie::serde::codec::{
    deserialize_decoder, deserialize_merges, deserialize_prefix_match, deserialize_splits,
    serialize_merges, serialize_pair_lookup, serialize_prefix_match, serialize_splits,
    serialize_vocab_decoder,
};
use tokie::serde::configs::{
    deserialize_unigram_config, deserialize_wordpiece_config, join_score_words,
    serialize_unigram_config, serialize_wordpiece_config, UnigramConfig, WordPieceConfig,
};
use tokie::serde::added_section::serialize_added_tokens;
use tokie::serde::frame::write_file;
use tokie::serde::parts::{read_parts, ModelParts};
use tokie::serde::lookups::{build_token_lookups, fix_byte_fallback_collisions};
use tokie::serde::SerdeError;
use tokie::tokenizer::Tokenizer;
use tokie::types::Split;

fn text(s: &str) -> Json {
    Json::Text(s.to_string())
}

fn number(n: u64) -> Json {
    Json::Number(Some(n), (n as f64).to_bits())
}

fn score(x: f64) -> Json {
    Json::Number(None, x.to_bits())
}

fn object(entries: Vec<(&str, Json)>) -> Json {
    Json::Object(entries.into_iter().map(|(k, v)| (k.to_string(), v)).collect())
}

fn saved() -> Vec<u8> {
    let base: Vec<Vec<u8>> = (0u8..=255).map(|b| vec![b]).collect();
    let (encoder, tokens) =
        BacktrackingBytePairEncoder::from_merges(&[(b'a' as u32, b'b' as u32)], &base);
    Tokenizer::new(
        Encoder::Backtracking(encoder),
        Decoder::new(&tokens),
        PretokType::Gpt2,
        Normalizer::Absent,
        PostProcessor::bert(1, 2),
    )
    .save()
}

/// The file with a number of its header replaced.
fn with_word(at: usize, x: u32) -> Vec<u8> {
    let mut d = saved();
    d[at..at + 4].copy_from_slice(&x.to_le_bytes());
    d
}

#[test]
fn files_out_of_order_are_refused() {
    let e = |d: &[u8]| Tokenizer::load(d).err();
    assert!(e(&saved()).is_none());
    assert_eq!(e(&[]), Some(SerdeError::InvalidData("file too small")));
    assert_eq!(e(&with_word(0, 7)), Some(SerdeError::InvalidMagic));
    assert_eq!(e(&with_word(4, 99)), Some(SerdeError::UnsupportedVersion(99)));
    assert_eq!(e(&with_word(8, 77)), Some(SerdeError::InvalidEncoderType(77)));
    assert_eq!(e(&with_word(8, 4)), Some(SerdeError::InvalidEncoderType(4)));
    assert_eq!(e(&with_word(12, 50)), Some(SerdeError::InvalidPretokenizer(50)));
    assert_eq!(e(&with_word(16, 13)), Some(SerdeError::InvalidNormalizer(13)));
    assert_eq!(e(&with_word(20, 9)), Some(SerdeError::InvalidPostProcessor(9)));
    let mut d = saved();
    let n = d.len();
    d.truncate(n - 1);
    assert!(e(&d).is_some());
    // A byte of the first section, behind the header.
    let mut d = saved();
    let at = u32::from_le_bytes([d[40], d[41], d[42], d[43]]) as usize;
    d[at + 9] ^= 1;
    assert!(matches!(e(&d), Some(SerdeError::ChecksumMismatch { .. })));
}

#[test]
fn a_saved_file_is_in_order() {
    let t = Tokenizer::load(&saved()).unwrap();
    assert_eq!(t.save(), saved());
    let t = t.checked().unwrap();
    assert_eq!(t.encode_ids("ab", true), vec![1, 256, 2]);
    assert_eq!(t.save(), saved());
}

#[test]
fn sections_are_read_back() {
    let splits = vec![Split::base(0), Split::base(1), Split::merge(0, 1)];
    assert_eq!(deserialize_splits(&serialize_splits(&splits)).unwrap(), splits);
    assert!(deserialize_splits(&[0; 7]).is_err());
    assert_eq!(deserialize_prefix_match(&serialize_prefix_match(&[7, u32::MAX])).unwrap(), vec![7, u32::MAX]);
    assert!(deserialize_prefix_match(&[0; 5]).is_err());
    let merges = vec![(1, 2, 3), (4, 5, 6)];
    assert_eq!(deserialize_merges(&serialize_merges(&merges)).unwrap(), merges);
    assert!(deserialize_merges(&[0; 13]).is_err());
    let ranked = [(9, 1, 2, 3), (4, 5, 6, 7), (9, 0, 0, 1)];
    assert_eq!(
        deserialize_merges(&serialize_pair_lookup(&ranked)).unwrap(),
        vec![(5, 6, 7), (1, 2, 3), (0, 0, 1)]
    );
    let v = VocabDecoder::new(&[b"a".to_vec(), b"".to_vec(), b"bc".to_vec()]);
    let (offsets, data) = deserialize_decoder(&serialize_vocab_decoder(&v), 3).unwrap();
    assert_eq!(offsets, vec![0, 1, 1, 3]);
    assert_eq!(data, b"abc");
    assert!(deserialize_decoder(&[0; 3], 3).is_err());
}

#[test]
fn settings_are_read_back() {
    let w = WordPieceConfig {
        unk_token: 3,
        continuation_prefix: b"##".to_vec(),
        max_input_chars_per_word: 77,
    };
    let d = serialize_wordpiece_config(&w);
    assert_eq!(d.len(), 14);
    assert_eq!(deserialize_wordpiece_config(&d).unwrap(), w);
    assert_eq!(
        deserialize_wordpiece_config(&d[..10]).map(|c| c.max_input_chars_per_word),
        Ok(100)
    );
    assert_eq!(
        deserialize_wordpiece_config(&d[..7]).err(),
        Some(SerdeError::InvalidData("wordpiece config too small"))
    );
    assert_eq!(
        deserialize_wordpiece_config(&d[..9]).err(),
        Some(SerdeError::InvalidData("wordpiece prefix truncated"))
    );
    let u = UnigramConfig {
        unk_token: 1,
        byte_tokens: (0..256).collect(),
        score_words: vec![1, 2, 3, 4],
        token_lengths: vec![5, 6],
    };
    let d = serialize_unigram_config(&u);
    assert_eq!(d.len(), 1032 + 16 + 4);
    assert_eq!(deserialize_unigram_config(&d, 13).unwrap(), u);
    assert_eq!(
        deserialize_unigram_config(&d[..9], 13).err(),
        Some(SerdeError::InvalidData("unigram config too small"))
    );
    assert_eq!(
        deserialize_unigram_config(&d[..1040], 13).err(),
        Some(SerdeError::InvalidData("unigram config truncated"))
    );
}

#[test]
fn bytes_with_two_tokens() {
    // A vocabulary of 256 byte tokens, and one more token for `a`.
    let mut data: Vec<u8> = (0u8..=255).collect();
    data.push(b'a');
    let offsets: Vec<u32> = (0..=257).collect();
    let mut l = build_token_lookups(&offsets, &data, 257);
    assert_eq!(l.byte_lut[b'a' as usize], 97);
    assert_eq!(l.byte_tokens[b'a' as usize], vec![97, 256]);
    assert_eq!(l.token_lengths.len(), 257);
    // Merges speak of the later token, so that one is meant.
    let merges = [(256, 98, 300)];
    fix_byte_fallback_collisions(&mut l.byte_lut, &mut l.token_cache, &merges, &l.byte_tokens);
    assert_eq!(l.byte_lut[b'b' as usize], 98);
    let before = l.byte_lut[b'a' as usize];
    assert!(before == 97 || before == 256);
}

#[test]
fn fallback_tokens() {
    assert_eq!(parse_byte_fallback_token("<0x0A>"), Some(10));
    assert_eq!(parse_byte_fallback_token("<0xfF>"), Some(255));
    assert_eq!(parse_byte_fallback_token("<0x+7>"), None);
    assert_eq!(parse_byte_fallback_token("<0x+A>"), None);
    assert_eq!(parse_byte_fallback_token("<0xG0>"), None);
    assert_eq!(parse_byte_fallback_token("<0x0A"), None);
    assert_eq!(decode_sentencepiece_token("<0x41>"), b"A");
    assert_eq!(decode_sentencepiece_token("\u{2581}a"), "\u{2581}a".as_bytes());
}

/// A description of a small byte-level model.
fn description(vocab: Json, merges: Json) -> Json {
    object(vec![
        ("model", object(vec![("type", text("BPE")), ("vocab", vocab), ("merges", merges)])),
        ("pre_tokenizer", object(vec![("type", text("ByteLevel"))])),
        ("decoder", object(vec![("type", text("ByteLevel"))])),
        (
            "added_tokens",
            Json::List(vec![object(vec![
                ("id", number(259)),
                ("content", text("<eot>")),
                ("special", Json::Bool(true)),
            ])]),
        ),
    ])
}

const VOCAB: [&[u8]; 6] = [b"a", b"b", b"ab", b"a", b"<unk>", b"c"];

/// The bytes of a file for an encoder of this kind.
fn file_of(kind: u32, merge_data: Vec<u8>, daac: Vec<u8>) -> Vec<u8> {
    let tokens: Vec<Vec<u8>> = VOCAB.iter().map(|t| t.to_vec()).collect();
    let sections = vec![
        serialize_vocab_decoder(&VocabDecoder::new(&tokens)),
        merge_data,
        daac,
        Vec::new(),
        PostProcessor::Absent.serialize(),
        Vec::new(),
        serialize_added_tokens(&[], &[("<unk>".to_string(), 4)]),
    ];
    write_file(&[13, kind, 0, 0, 0, 6, 1, 5, 0xFFFF_FFFF], &sections).unwrap()
}

fn daac() -> Vec<u8> {
    let mut trie = daggrs::Trie::new();
    trie.add(b"ab", 2);
    trie.build(daggrs::MatchKind::Overlapping);
    trie.compile().serialize()
}

#[test]
fn files_of_every_encoder_are_read() {
    let merges = serialize_merges(&[(3, 1, 2)]);
    let p = read_parts(&file_of(1, merges.clone(), Vec::new())).unwrap();
    assert_eq!(p.header.encoder, EncoderType::Simple);
    assert_eq!(p.decoder.decoder_type(), DecoderType::ByteLevel);
    assert_eq!(p.special_tokens, vec![("<unk>".to_string(), 4)]);
    assert!(p.added_tokens.is_empty());
    match p.model {
        ModelParts::Simple { lookups, merges } => {
            assert_eq!(merges, vec![(3, 1, 2)]);
            assert_eq!(lookups.byte_lut[b'a' as usize], 0);
            assert_eq!(lookups.token_cache.get(b"ab".as_slice()), Some(&2));
            assert_eq!(lookups.byte_tokens[b'a' as usize], vec![0, 3]);
        }
        _ => panic!("another encoder"),
    }
    let p = read_parts(&file_of(3, merges, Vec::new())).unwrap();
    assert_eq!(p.decoder.decoder_type(), DecoderType::Metaspace);
    match p.model {
        ModelParts::SentencePiece { lookups, merges } => {
            assert_eq!(merges, vec![(3, 1, 2)]);
            assert_eq!(lookups.byte_lut[b'a' as usize], 3);
            assert_eq!(lookups.token_cache.get(b"a".as_slice()), Some(&3));
        }
        _ => panic!("another encoder"),
    }
    let config = WordPieceConfig {
        unk_token: 4,
        continuation_prefix: b"##".to_vec(),
        max_input_chars_per_word: 7,
    };
    let p = read_parts(&file_of(2, serialize_wordpiece_config(&config), daac())).unwrap();
    assert!(matches!(p.model, ModelParts::WordPiece { config: c, .. } if c == config));
    let config = UnigramConfig {
        unk_token: 4,
        byte_tokens: vec![9; 256],
        score_words: vec![1; 12],
        token_lengths: vec![1, 1, 2, 1, 5, 1],
    };
    let p = read_parts(&file_of(4, serialize_unigram_config(&config), daac())).unwrap();
    assert!(matches!(p.model, ModelParts::Unigram { config: c, .. } if c == config));
    let p = read_parts(&saved()).unwrap();
    match p.model {
        ModelParts::Backtracking { splits, next_prefix_match, .. } => {
            assert_eq!(splits[256], Split { left: 97, right: 98 });
            assert_eq!(next_prefix_match[256], 97);
        }
        _ => panic!("another encoder"),
    }
}

#[test]
fn a_unigram_file_gives_its_encoder() {
    let tokens: Vec<Vec<u8>> = VOCAB.iter().map(|t| t.to_vec()).collect();
    let low = |x: f64| x.to_bits() as u32;
    let high = |x: f64| (x.to_bits() >> 32) as u32;
    let scores = [-1.5, -2.0, -1.0, -9.0, 0.25, -3.0];
    let config = UnigramConfig {
        unk_token: 4,
        byte_tokens: vec![u32::MAX; 256],
        score_words: scores.iter().flat_map(|x| [low(*x), high(*x)]).collect(),
        token_lengths: vec![1, 1, 2, 1, 5, 1],
    };
    let p = read_parts(&file_of(4, serialize_unigram_config(&config), daac())).unwrap();
    let ModelParts::Unigram { config: c, .. } = p.model else { panic!("another encoder") };
    let bits = join_score_words(&c.score_words);
    assert_eq!(bits.iter().map(|w| f64::from_bits(*w)).collect::<Vec<_>>(), scores);
    let e = UnigramEncoder::from_tables(bits, c.unk_token, c.byte_tokens, c.token_lengths, &tokens).unwrap();
    assert_eq!(e.vocab_size(), 6);
    let mut edges: Vec<_> = e.edges(b"ab")[0].iter().map(|x| (x.end, x.token)).collect();
    edges.sort();
    assert_eq!(edges, vec![(1, 3), (2, 2)]);
    assert!(UnigramEncoder::from_tables(Vec::new(), 0, vec![0; 3], Vec::new(), &tokens).is_none());
    assert!(join_score_words(&[1]).is_empty());
}

#[test]
fn a_damaged_byte_is_found() {
    let file = file_of(1, serialize_merges(&[(3, 1, 2)]), vec![7; 9]);
    let word = |i: usize| u32::from_le_bytes(file[4 * i..4 * i + 4].try_into().unwrap());
    assert_eq!(word(15), 0xFFFF_FFFF ^ crc_bits(&[7; 9]));
    assert_eq!(crc_bits(b"123456789"), 0xFFFF_FFFF ^ 0xCBF4_3926);
    for i in 96..file.len() {
        let mut damaged = file.clone();
        damaged[i] ^= 0x10;
        assert!(matches!(
            read_parts(&damaged),
            Err(SerdeError::ChecksumMismatch { .. })
        ));
    }
    assert!(read_parts(&file).is_ok());
}

/// The remainder of bytes, bit by bit.
fn crc_bits(d: &[u8]) -> u32 {
    let mut c: u32 = 0xFFFF_FFFF;
    for b in d {
        c ^= *b as u32;
        for _ in 0..8 {
            c = if c & 1 == 1 { (c >> 1) ^ 0xEDB8_8320 } else { c >> 1 };
        }
    }
    c
}

#[test]
fn files_of_every_encoder_are_checked() {
    let e = |d: Vec<u8>| read_parts(&d).err();
    assert_eq!(
        e(file_of(1, vec![0; 5], Vec::new())),
        Some(SerdeError::InvalidData("merge data size not aligned (expected 12 bytes per merge)"))
    );
    assert_eq!(
        e(file_of(2, vec![0; 5], daac())),
        Some(SerdeError::InvalidData("wordpiece config too small"))
    );
    let wordpiece = vec![0; 8];
    assert_eq!(
        e(file_of(2, wordpiece, Vec::new())),
        Some(SerdeError::InvalidData("failed to deserialize DAAC"))
    );
    assert_eq!(
        e(file_of(4, vec![0; 5], daac())),
        Some(SerdeError::InvalidData("unigram config too small"))
    );
    assert_eq!(e(file_of(7, Vec::new(), daac())), Some(SerdeError::InvalidEncoderType(7)));
    assert_eq!(e(b"TOKI".to_vec()), Some(SerdeError::InvalidData("file too small")));
}

/// The texts of the 256 bytes, in the order of the bytes.
fn byte_letters() -> Vec<String> {
    let plain = |b: u32| (0x21..=0x7E).contains(&b) || (0xA1..=0xAC).contains(&b) || b >= 0xAE;
    let mut n = 0;
    (0u32..256)
        .map(|b| {
            let c = if plain(b) {
                b
            } else {
                n += 1;
                255 + n
            };
            char::from_u32(c).unwrap().to_string()
        })
        .collect()
}

fn vocab_json(more: &[&str]) -> Json {
    let mut v: Vec<(String, Json)> = byte_letters()
        .into_iter()
        .enumerate()
        .map(|(i, s)| (s, number(i as u64)))
        .collect();
    for s in more {
        let id = v.len() as u64;
        v.push((s.to_string(), number(id)));
    }
    Json::Object(v)
}

#[test]
fn a_description_is_loaded() {
    let data = description(
        vocab_json(&["ab", "abc", "\u{120}ab"]),
        Json::List(vec![text("a b"), text("ab c"), text("\u{120} ab")]),
    );
    let (t, patterns) = from_json_value(&data, EncoderType::Backtracking).unwrap();
    assert!(patterns.is_empty());
    assert_eq!(t.vocab_size(), 259);
    assert_eq!(t.pretokenizer_type(), PretokType::Gpt2);
    assert_eq!(t.encode_ids("abc ab", false), vec![257, 258]);
    assert_eq!(t.encode_ids("ab<eot>", false), vec![256, 259]);
    assert_eq!(t.special_tokens(), &[("<eot>".to_string(), 259)]);
    assert_eq!(t.decode(&[257, 258]).as_deref(), Some("abc ab"));
}

#[test]
fn descriptions_out_of_order_are_refused() {
    let e = |d: &Json| from_json_value(d, EncoderType::Backtracking).err();
    assert_eq!(
        e(&description(text("x"), Json::List(vec![]))),
        Some(JsonLoadError::InvalidFormat("vocab should be object"))
    );
    assert_eq!(
        e(&description(vocab_json(&[]), text("x"))),
        Some(JsonLoadError::InvalidFormat("merges should be array"))
    );
    assert_eq!(
        e(&description(object(vec![("a", number(0)), ("b", number(5))]), Json::List(vec![text("a b")]))),
        Some(JsonLoadError::InvalidFormat("merges should join tokens of the vocab"))
    );
    let unigram = object(vec![("model", object(vec![("type", text("Unigram"))]))]);
    assert_eq!(e(&unigram), Some(JsonLoadError::UnsupportedEncoder(EncoderType::Unigram)));
    let wordpiece = object(vec![("model", object(vec![("type", text("WordPiece"))]))]);
    assert_eq!(e(&wordpiece), Some(JsonLoadError::UnsupportedEncoder(EncoderType::WordPiece)));
}

#[test]
fn ids_of_any_kind_are_loaded() {
    let load = |v: Json, m: Vec<Json>| {
        from_json_value(&description(v, Json::List(m)), EncoderType::Backtracking).unwrap().0
    };
    let t = load(object(vec![("c", number(9)), ("a", number(5))]), vec![]);
    assert_eq!(t.vocab_size(), 2);
    assert_eq!(t.id_to_token(0).as_deref(), Some("a"));
    assert_eq!(t.id_to_token(1).as_deref(), Some("c"));
    assert!(t.checked().is_none());
    let t = load(object(vec![("b", number(1)), ("a", number(0)), ("c", number(1))]), vec![]);
    assert_eq!(t.id_to_token(1).as_deref(), Some("b"));
    assert_eq!(t.id_to_token(2).as_deref(), Some("c"));
    let t = load(object(vec![("b", number(1)), ("ab", number(2)), ("a", number(0))]), vec![text("a b")]);
    assert_eq!(t.checked().unwrap().encode_ids("aba", false), vec![2, 0]);
}

#[test]
fn a_merge_with_an_empty_token_is_loaded() {
    let mut v = byte_letters().into_iter().enumerate().map(|(i, s)| (s, number(i as u64))).collect::<Vec<_>>();
    v.push((String::new(), number(256)));
    v.push(("ab".to_string(), number(257)));
    let merges = Json::List(vec![
        Json::List(vec![text("a"), text("b")]),
        Json::List(vec![text(""), text("a")]),
    ]);
    let (t, _) = from_json_value(&description(Json::Object(v), merges), EncoderType::Backtracking).unwrap();
    assert_eq!(t.encode_ids("xabab", false), vec![120, 257, 257]);
    assert_eq!(t.encode_ids("aa", false), vec![97, 97]);
}

#[test]
fn a_unigram_description_is_loaded() {
    let pair = |s: &str, x: f64| Json::List(vec![text(s), score(x)]);
    let model = |vocab: Json| {
        object(vec![(
            "model",
            object(vec![("type", text("Unigram")), ("unk_id", number(1)), ("vocab", vocab)]),
        )])
    };
    let data = model(Json::List(vec![pair("<0x41>", -1.5), pair("<unk>", 0.0), text("no pair"), pair("\u{2581}b", -2.0)]));
    let m = load_unigram(&data).unwrap();
    assert_eq!(m.encoder.vocab_size(), 3);
    assert_eq!(m.encoder.unk_token(), 1);
    assert_eq!(f64::from_bits(m.encoder.scores()[0]), -1.5);
    assert_eq!(m.decoder.vocab_size(), 3);
    assert_eq!(m.decoder.token_to_bytes(0), b"A");
    let edges = m.encoder.edges("A\u{2581}b".as_bytes());
    assert_eq!(edges[0][0].token, 0);
    assert_eq!((edges[1][0].token, edges[1][0].end), (3, 5));
    assert_eq!(
        load_unigram(&model(text("x"))).err(),
        Some(JsonLoadError::InvalidFormat("Unigram vocab should be array"))
    );
    assert_eq!(
        load_unigram(&model(Json::List(vec![text("x")]))).err(),
        Some(JsonLoadError::InvalidFormat("Unigram vocab is empty"))
    );
}

#[test]
fn a_wordpiece_description_is_loaded() {
    let data = object(vec![(
        "model",
        object(vec![
            ("type", text("WordPiece")),
            ("vocab", object(vec![("##b", number(2)), ("[UNK]", number(0)), ("a", number(1))])),
        ]),
    )]);
    let m = load_wordpiece(&data).unwrap();
    assert_eq!(m.tokens, vec![b"[UNK]".to_vec(), b"a".to_vec(), b"##b".to_vec()]);
    assert_eq!(m.unk_token, 0);
    assert_eq!(m.prefix, b"##");
    assert_eq!(m.max_input_chars_per_word, 100);
    let bad = object(vec![("model", object(vec![("vocab", Json::Null)]))]);
    assert_eq!(
        load_wordpiece(&bad).err(),
        Some(JsonLoadError::InvalidFormat("vocab should be object"))
    );
}

#[test]
fn patterns_without_lookahead() {
    assert_eq!(
        fallback_patterns("a|\\s+(?!\\S)"),
        vec![
            ("a|\\s+$".to_string(), false),
            ("\\s+\\s".to_string(), true),
            ("\\s+".to_string(), false),
        ]
    );
    assert_eq!(fallback_patterns("a+"), vec![("a+".to_string(), false)]);
}

#[test]
fn a_precompiled_charsmap_is_decoded() {
    // An empty trie, in Base64.
    let n = |map: &str| {
        detect_normalizer(&object(vec![
            (
                "normalizer",
                object(vec![("type", text("Precompiled")), ("precompiled_charsmap", text(map))]),
            ),
            ("pre_tokenizer", object(vec![("type", text("Metaspace"))])),
        ]))
        .to_u32()
    };
    assert_eq!(n("AAAAAA=="), 9);
    assert_eq!(n("****"), 5);
    assert_eq!(n("AAAA"), 5);
    let lower = object(vec![(
        "normalizer",
        object(vec![("type", text("BertNormalizer")), ("lowercase", Json::Bool(true))]),
    )]);
    assert_eq!(detect_normalizer(&lower).to_u32(), 1);
}

/// A value as a JSON text.
fn spelled(j: &Json) -> String {
    match j {
        Json::Null => "null".to_string(),
        Json::Bool(b) => b.to_string(),
        Json::Number(Some(n), _) => n.to_string(),
        Json::Number(None, w) => f64::from_bits(*w).to_string(),
        Json::Text(s) => format!("\"{}\"", s.replace('\\', "\\\\").replace('"', "\\\"")),
        Json::List(v) => format!("[{}]", v.iter().map(spelled).collect::<Vec<_>>().join(",")),
        Json::Object(v) => {
            let entries: Vec<String> = v
                .iter()
                .map(|(k, x)| format!("{}: {}", spelled(&text(k)), spelled(x)))
                .collect();
            format!("{{{}}}", entries.join(", "))
        }
    }
}

#[test]
fn json_texts_are_parsed() {
    assert_eq!(parse_json("null"), Ok(Json::Null));
    assert_eq!(
        parse_json("[true, 7, -1.5, \"a\\u00e9\\n\"]"),
        Ok(Json::List(vec![
            Json::Bool(true),
            Json::Number(Some(7), 7f64.to_bits()),
            Json::Number(None, (-1.5f64).to_bits()),
            text("a\u{e9}\n"),
        ]))
    );
    // Entries come in the order of their keys, the last one of each.
    assert_eq!(
        parse_json("{\"b\": 1, \"a\": {}, \"b\": [null]}"),
        Ok(object(vec![("a", object(vec![])), ("b", Json::List(vec![Json::Null]))]))
    );
    for bad in ["", "{", "[1,]", "nul", "\"", "1 2"] {
        assert_eq!(parse_json(bad), Err(JsonLoadError::Json), "{bad:?}");
    }
}

#[test]
fn the_text_of_a_description_is_loaded() {
    let data = description(
        vocab_json(&["ab", "abc", "\u{120}ab"]),
        Json::List(vec![text("a b"), text("ab c"), text("\u{120} ab")]),
    );
    let json = spelled(&data);
    let (t, patterns) = from_json_str(&json).unwrap();
    assert!(patterns.is_empty());
    assert_eq!(t.vocab_size(), 259);
    assert_eq!(t.pretokenizer_type(), PretokType::Gpt2);
    assert_eq!(t.encode_ids("abc ab<eot>", false), vec![257, 258, 259]);
    let t = from_json_str_with_pretokenizer(&json, PretokType::Cl100k).unwrap();
    assert_eq!(t.pretokenizer_type(), PretokType::Cl100k);
    assert_eq!(t.encode_ids("abc", false), vec![257]);
    let e = from_json_str_with_options(&json, EncoderType::Unigram, PretokType::Gpt2).err();
    assert_eq!(e, from_json_value(&data, EncoderType::Unigram).err());
    assert_eq!(from_json_str("{").err(), Some(JsonLoadError::Json));
    assert_eq!(
        from_json_str("{}").err(),
        Some(JsonLoadError::InvalidFormat("vocab should be object"))
    );
}
