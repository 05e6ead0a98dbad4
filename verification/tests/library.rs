//! Laws and edge cases on concrete values.
use tokie::added::AddedTokenSpec;
use tokie::bits;
use tokie::charsmap::{CharsmapError, PrecompiledCharsmap};
use tokie::decoder::{Decoder, DecoderType};
use tokie::encoder::backtracking::BacktrackingBytePairEncoder;
use tokie::encoder::cache::{cache_bits, PretokenCache};
use tokie::encoder::{Encoder, EncoderType};
use tokie::hash::{fnv1a_update, FNV_OFFSET};
use tokie::hub::{first_source, next_source, repo_basename, FromPretrainedOptions, Source};
use tokie::normalizer::{MetaspacePrepend, Normalizer};
use tokie::order::sort_keys;
use tokie::padding::{
    pad_batch, truncate_ids, truncate_pair, Encoding, PaddingDirection, PaddingParams,
    PaddingStrategy, TruncationDirection, TruncationStrategy,
};
use tokie::pool::{checkout, Lease, SlotState};
use tokie::postprocessor::PostProcessor;
use tokie::pretok::{PretokType, Pretokenizer};
use tokie::pretokie::batch::{ascii_masks, batch_masks};
use tokie::pretokie::configs::{Cl100kConfig, Gpt2Config};
use tokie::tokenizer::batch::{byte_balanced_chunks, document_offsets, split_file_docs};
use tokie::tokenizer::Tokenizer;

fn base() -> Vec<Vec<u8>> {
    (0u8..=255).map(|b| vec![b]).collect()
}

fn tokenizer_of(merges: &[(u32, u32)], pretok: PretokType, normalizer: Normalizer) -> Tokenizer {
    let (encoder, tokens) = BacktrackingBytePairEncoder::from_merges(merges, &base());
    Tokenizer::new(
        Encoder::Backtracking(encoder),
        Decoder::new(&tokens),
        pretok,
        normalizer,
        PostProcessor::Absent,
    )
}

/// Merge a text pair by pair: each merge in turn, everywhere, from the left.
fn merged_in_order(merges: &[(u32, u32)], text: &[u8]) -> Vec<u32> {
    let mut tokens: Vec<u32> = text.iter().map(|b| *b as u32).collect();
    for (k, (a, b)) in merges.iter().enumerate() {
        let mut next = Vec::new();
        let mut i = 0;
        while i < tokens.len() {
            if i + 1 < tokens.len() && tokens[i] == *a && tokens[i + 1] == *b {
                next.push(256 + k as u32);
                i += 2;
            } else {
                next.push(tokens[i]);
                i += 1;
            }
        }
        tokens = next;
    }
    tokens
}

#[test]
fn search_gives_what_merging_gives() {
    let (a, b, c, d) = (b'a' as u32, b'b' as u32, b'c' as u32, b'd' as u32);
    let merges = [(b, c), (a, b), (257, 256), (c, d), (256, d), (a, a), (261, 261)];
    let (encoder, tokens) = BacktrackingBytePairEncoder::from_merges(&merges, &base());
    for n in 0..4096usize {
        let text: Vec<u8> = (0..6).map(|k| b"abcd"[(n >> (2 * k)) & 3]).collect();
        let got = encoder.encode(&text, 1);
        assert_eq!(got, merged_in_order(&merges, &text), "{text:?}");
        let spelled: Vec<u8> = got.iter().flat_map(|t| tokens[*t as usize].clone()).collect();
        assert_eq!(spelled, text);
    }
}

#[test]
fn decoding_undoes_encoding() {
    let mut t = tokenizer_of(
        &[(b'a' as u32, b'b' as u32), (b' ' as u32, b'c' as u32)],
        PretokType::Gpt2,
        Normalizer::Absent,
    );
    let texts = ["", "ab c\n\n  d", "caf\u{e9} \u{4f60} \u{1f600} it's 12345", "x\0y\u{feff}"];
    for s in texts {
        let ids = t.encode_ids(s, false);
        assert_eq!(t.decode(&ids).as_deref(), Some(s));
        assert_eq!(t.decode_bytes(&ids), s.as_bytes());
    }
    // An added token whose id is a token with its bytes.
    t.set_added_tokens(&[AddedTokenSpec::plain(256, b"ab".to_vec())]);
    let s = "xabab ab";
    let ids = t.encode_ids(s, false);
    assert_eq!(t.decode(&ids).as_deref(), Some(s));
    assert_eq!(ids.iter().filter(|i| **i == 256).count(), 3);
}

#[test]
fn added_tokens_take_the_blanks_they_ask_for() {
    let mut t = tokenizer_of(&[], PretokType::Absent, Normalizer::Absent);
    t.set_added_tokens(&[AddedTokenSpec {
        lstrip: true,
        rstrip: true,
        ..AddedTokenSpec::plain(300, b"<m>".to_vec())
    }]);
    assert_eq!(t.encode_ids("a <m> b", false), vec![97, 300, 98]);
    assert_eq!(t.debug_split_added("a <m> b"), vec![(None, 0, 1), (Some(300), 1, 6), (None, 6, 7)]);
    t.set_added_tokens(&[AddedTokenSpec {
        single_word: true,
        ..AddedTokenSpec::plain(300, b"mid".to_vec())
    }]);
    assert_eq!(t.encode_ids("mid", false), vec![300]);
    assert_eq!(t.encode_ids("amid", false), vec![97, 109, 105, 100]);
}

#[test]
fn normalized_added_tokens_match_normalized_text() {
    let mut t = tokenizer_of(&[], PretokType::Absent, Normalizer::BertUncased);
    t.set_added_tokens(&[AddedTokenSpec {
        normalized: true,
        ..AddedTokenSpec::plain(300, b"FOO".to_vec())
    }]);
    assert_eq!(t.encode_ids("xfoo", false), vec![120, 300]);
}

#[test]
fn offsets_tile_the_text() {
    let t = tokenizer_of(&[(b'a' as u32, b'b' as u32)], PretokType::Gpt2, Normalizer::Absent);
    let s = "ab cab \u{e9}";
    let e = t.encode_with_offsets(s, false);
    assert_eq!(e.offsets.len(), e.ids.len());
    let mut at = 0;
    for (start, end) in &e.offsets {
        assert_eq!(*start, at);
        at = *end;
    }
    assert_eq!(at, s.len());
    assert_eq!(e.ids, t.encode_ids(s, false));
}

#[test]
fn bytes_that_are_no_text_are_encoded_as_they_are() {
    let t = tokenizer_of(&[], PretokType::Absent, Normalizer::Absent);
    assert_eq!(t.encode_bytes(&[0xFF, 0x61]), vec![255, 97]);
    assert_eq!(t.decode(&[255]), None);
    // A document of a file is read as text.
    let (ids, offsets) = t.encode_buffers_flat(&[vec![0xFF, 0x61]], b"", false);
    assert_eq!(ids, vec![0xEF, 0xBF, 0xBD, 0x61]);
    assert_eq!(offsets, vec![0, 4]);
}

#[test]
fn vocabulary_by_text_and_by_id() {
    let t = tokenizer_of(&[(b'a' as u32, b'b' as u32)], PretokType::Absent, Normalizer::Absent);
    assert_eq!(t.id_to_token(256).as_deref(), Some("ab"));
    assert_eq!(t.token_to_id("ab"), Some(256));
    assert_eq!(t.token_to_id("abc"), None);
    assert_eq!(t.id_to_token(257), None);
    assert_eq!(t.vocab_size(), 257);
    assert!(t.get_vocab().contains(&("ab".to_string(), 256)));
}

#[test]
fn workers_share_by_bytes() {
    assert_eq!(byte_balanced_chunks(&[], 4), vec![]);
    let runs = byte_balanced_chunks(&[10, 1, 1, 10, 5], 2);
    assert_eq!(runs.first().map(|r| r.0), Some(0));
    assert_eq!(runs.last().map(|r| r.1), Some(5));
    for w in runs.windows(2) {
        assert_eq!(w[0].1, w[1].0);
    }
    assert_eq!(document_offsets(&[2, 0, 3]), vec![0, 2, 2, 5]);
    let buffers = [b"a--b--".to_vec(), b"".to_vec(), b"c".to_vec()];
    let docs = split_file_docs(&buffers, b"--");
    assert_eq!(docs, vec![&b"a"[..], &b"b"[..], &b"c"[..]]);
}

#[test]
fn caches_are_leased_by_generation() {
    let slot = |free: bool, filled: bool, generation: u64| SlotState { free, filled, generation };
    assert_eq!(checkout(&[slot(true, true, 1), slot(true, true, 2)], 2), Lease::Warm(1));
    assert_eq!(checkout(&[slot(true, true, 1), slot(true, false, 2)], 2), Lease::Empty(1));
    assert_eq!(checkout(&[slot(false, true, 2), slot(true, true, 1)], 2), Lease::Stale(1));
    assert_eq!(checkout(&[slot(false, true, 2)], 2), Lease::Private);
    assert_eq!(checkout(&[], 2), Lease::Private);
}

#[test]
fn cache_settings() {
    assert_eq!(cache_bits(None), 16);
    assert_eq!(cache_bits(Some(b"12")), 12);
    assert_eq!(cache_bits(Some(b"+024")), 24);
    assert_eq!(cache_bits(Some(b"25")), 16);
    assert_eq!(cache_bits(Some(b"9")), 16);
    assert_eq!(cache_bits(Some(b"")), 16);
    assert_eq!(cache_bits(Some(b"+")), 16);
    assert_eq!(cache_bits(Some(b"1x")), 16);
    assert_eq!(cache_bits(Some(b"99999999999999999999999")), 16);
    let _ = PretokenCache::with_bits(cache_bits(Some(b"10")));
}

#[test]
fn hashes_of_sources() {
    assert_eq!(fnv1a_update(FNV_OFFSET, b""), 0xcbf2_9ce4_8422_2325);
    assert_eq!(fnv1a_update(FNV_OFFSET, b"a"), 0xaf63_dc4c_8601_ec8c);
    assert_eq!(fnv1a_update(FNV_OFFSET, b"foobar"), 0x85944171f73967e8);
    let half = fnv1a_update(FNV_OFFSET, b"foo");
    assert_eq!(fnv1a_update(half, b"bar"), 0x85944171f73967e8);
}

#[test]
fn sources_of_a_pretrained_tokenizer() {
    let o = FromPretrainedOptions::default();
    assert_eq!(first_source(&o), Source::Compiled);
    let o = o.revision("main".to_string()).token("t".to_string()).cache_dir("c".to_string());
    assert_eq!(first_source(&o), Source::Binary);
    assert_eq!(next_source(&Source::Compiled, "x/y"), Some(Source::Binary));
    assert_eq!(next_source(&Source::Binary, "x/unheard-of"), Some(Source::Json));
    assert_eq!(next_source(&Source::Binary, "openai-community/GPT2"), Some(Source::Prebuilt("gpt2")));
    assert_eq!(next_source(&Source::Prebuilt("gpt2"), "gpt2"), Some(Source::Json));
    assert_eq!(next_source(&Source::Json, "gpt2"), None);
    assert_eq!(repo_basename("a/b/c"), "c");
    assert_eq!(repo_basename("gpt2"), "gpt2");
    assert_eq!(repo_basename("gpt2/"), "");
}

#[test]
fn keys_in_order() {
    assert_eq!(sort_keys(&[3, 1, 2, 1, 3]), vec![1, 3, 2, 0, 4]);
    assert_eq!(sort_keys(&[]), Vec::<usize>::new());
}

#[test]
fn cutting_and_filling() {
    let mut v = vec![1, 2, 3, 4];
    truncate_ids(&mut v, 2, TruncationDirection::Right);
    assert_eq!(v, vec![1, 2]);
    let mut v = vec![1, 2, 3, 4];
    truncate_ids(&mut v, 3, TruncationDirection::Left);
    assert_eq!(v, vec![2, 3, 4]);
    let (mut a, mut b) = (vec![1, 2, 3, 4], vec![5, 6]);
    truncate_pair(&mut a, &mut b, 4, TruncationStrategy::LongestFirst, TruncationDirection::Right);
    assert_eq!(a.len() + b.len(), 4);
    let p = PaddingParams {
        strategy: PaddingStrategy::BatchLongest,
        direction: PaddingDirection::Left,
        pad_to_multiple_of: Some(4),
        pad_id: 9,
        pad_type_id: 1,
    };
    let mut es = vec![Encoding::from_ids(vec![1]), Encoding::from_ids(vec![1, 2, 3, 4, 5])];
    pad_batch(&mut es, &p);
    assert_eq!(es[0].ids, vec![9, 9, 9, 9, 9, 9, 9, 1]);
    assert_eq!(es[0].attention_mask, vec![0, 0, 0, 0, 0, 0, 0, 1]);
    assert_eq!(es[0].type_ids, vec![1, 1, 1, 1, 1, 1, 1, 0]);
    assert_eq!(es[1].ids.len(), 8);
    assert_eq!(PaddingDirection::from_name("left"), Some(PaddingDirection::Left));
    assert_eq!(PaddingDirection::from_name("up"), None);
    assert_eq!(TruncationDirection::from_name("right"), Some(TruncationDirection::Right));
    assert_eq!(TruncationDirection::from_name(""), None);
    assert_eq!(TruncationStrategy::from_name("only_second"), Some(TruncationStrategy::OnlySecond));
    assert_eq!(TruncationStrategy::from_name("only_first"), Some(TruncationStrategy::OnlyFirst));
    assert_eq!(TruncationStrategy::from_name("longest_first"), Some(TruncationStrategy::LongestFirst));
    assert_eq!(TruncationStrategy::from_name("longest"), None);
}

#[test]
fn special_tokens_around_texts() {
    let p = PostProcessor::Template {
        single_prefix: vec![1],
        single_suffix: vec![2, 3],
        pair_a_prefix: vec![1],
        pair_a_suffix: vec![2],
        pair_b_prefix: vec![],
        pair_b_suffix: vec![3],
    };
    assert_eq!(p.process(&[7]), vec![1, 7, 2, 3]);
    assert_eq!(p.process_pair(&[7], &[8, 9]), (vec![1, 7, 2, 8, 9, 3], vec![0, 0, 0, 1, 1, 1]));
    assert_eq!(p.num_special_tokens_single(), 3);
    assert_eq!(p.num_special_tokens_pair(), 3);
    assert!(p.is_special_token(3));
    assert!(!p.is_special_token(7));
    let q = PostProcessor::prefix(5);
    assert_eq!(q.process_pair(&[7], &[8]), (vec![5, 7, 5, 8], vec![0, 0, 1, 1]));
    for x in [p, q, PostProcessor::bert(1, 2), PostProcessor::Absent] {
        let d = x.serialize();
        assert_eq!(PostProcessor::deserialize(x.type_id(), &d).map(|y| y.process(&[7])), Some(x.process(&[7])));
    }
    assert!(PostProcessor::deserialize(99, &[]).is_none());
    assert!(PostProcessor::deserialize(PostProcessor::bert(1, 2).type_id(), &[1]).is_none());
}

#[test]
fn fills_of_bits() {
    assert_eq!(bits::fill_right(0b0010, 0b1111_0110), 0b0110);
    assert_eq!(bits::fill_left(0b0100, 0b1111_0110), 0b0110);
    assert_eq!(bits::fill_both(0b0010_0000, 0b0111_0110), 0b0111_0000);
    assert_eq!(bits::fill_right(1, u64::MAX), u64::MAX);
    assert_eq!(bits::digit_run_splits3(0b1111_1110), 0b1001_0010);
    assert_eq!(bits::leading_run(0b1011), 0b11);
    assert_eq!(bits::leading_run(u64::MAX), u64::MAX);
}

#[test]
fn masks_of_a_batch() {
    // Words of three letters and a space: a piece starts at each space.
    let text = "abc ".repeat(17);
    let m = ascii_masks(text.as_bytes(), 0, true, false, false);
    assert_eq!(m.s, 0x8888_8888_8888_8888);
    assert_eq!(m.l, 0x7777_7777_7777_7777);
    let (usable, bad) = batch_masks::<Gpt2Config>(&text, 0);
    assert_eq!(bad, 0);
    assert_eq!(usable & !1, 0x8888_8888_8888_8888);
    // A batch that ends the text is left to the scanner.
    assert_eq!(batch_masks::<Cl100kConfig>(&"x".repeat(64), 0), (0, u64::MAX));
}

#[test]
fn pretokenizers_by_type() {
    for (t, p) in [
        (PretokType::Gpt2, Pretokenizer::gpt2()),
        (PretokType::Cl100k, Pretokenizer::cl100k()),
        (PretokType::Bert, Pretokenizer::bert()),
        (PretokType::O200k, Pretokenizer::o200k()),
        (PretokType::Voyage, Pretokenizer::voyage()),
        (PretokType::SmolLM, Pretokenizer::smollm()),
        (PretokType::DeepSeek, Pretokenizer::deepseek()),
        (PretokType::Qwen35, Pretokenizer::qwen()),
    ] {
        let s = "It's 1234 caf\u{e9}s,\n ok?";
        assert_eq!(
            t.to_pretokenizer().map(|x| x.for_each_piece(s).len()),
            Some(p.for_each_piece(s).len())
        );
        assert_eq!(PretokType::from_u32(t.to_u32()), Some(t));
    }
    assert!(PretokType::Absent.to_pretokenizer().is_none());
    assert_eq!(PretokType::from_u32(9), None);
    assert_eq!(
        Pretokenizer::bert().for_each_piece("Hi, you!"),
        vec!["Hi", ",", "you", "!"]
    );
}

#[test]
fn decoders_by_kind() {
    let words = vec![b"un".to_vec(), b"##able".to_vec(), b"to".to_vec()];
    let d = Decoder::for_encoder(&words, EncoderType::WordPiece);
    assert_eq!(d.decoder_type(), DecoderType::WordPiece);
    assert_eq!(d.decode(&[0, 1, 2], &PostProcessor::Absent).as_deref(), Some("unable to"));
    let pieces = vec!["\u{2581}Hello".as_bytes().to_vec(), "\u{2581}you".as_bytes().to_vec()];
    let d = Decoder::for_encoder(&pieces, EncoderType::Unigram);
    assert_eq!(d.decoder_type(), DecoderType::Metaspace);
    assert_eq!(d.decode(&[0, 1], &PostProcessor::Absent).as_deref(), Some("Hello you"));
}

#[test]
fn normal_forms() {
    let n = |x: Normalizer, s: &str| x.normalize(s).into_owned();
    assert_eq!(n(Normalizer::Metaspace(MetaspacePrepend::Unconditional), "a b"), "\u{2581}a\u{2581}b");
    assert_eq!(n(Normalizer::Metaspace(MetaspacePrepend::IfNotSpaceLed), " a"), "\u{2581}a");
    assert_eq!(n(Normalizer::MetaspaceReplace, "a b"), "a\u{2581}b");
    assert_eq!(n(Normalizer::SentencePiece, "\u{fb01}"), "\u{2581}fi");
    assert_eq!(n(Normalizer::SentencePieceLowercase, "\u{c9}A"), "\u{2581}ea");
    assert_eq!(n(Normalizer::BertUncased, "\u{c9}a\tB"), "ea b");
    assert_eq!(n(Normalizer::BertCased, "\u{c9}a\tB\0"), "\u{c9}a B");
    assert_eq!(n(Normalizer::Nfc, "e\u{301}"), "\u{e9}");
    for k in 0..12u32 {
        if k != 8 && k != 9 {
            assert_eq!(Normalizer::from_u32(k).map(|x| x.to_u32()), Some(k));
        }
    }
    assert!(Normalizer::from_u32(99).is_none());
}

#[test]
fn blobs_that_are_no_charsmap() {
    assert_eq!(PrecompiledCharsmap::from_blob(&[1, 2]).err(), Some(CharsmapError::Truncated));
    assert_eq!(
        PrecompiledCharsmap::from_blob(&[0, 0, 0, 0, 0xFF]).err(),
        Some(CharsmapError::InvalidUtf8)
    );
    assert_eq!(CharsmapError::Truncated.message(), "precompiled_charsmap blob truncated");
}
