//! More laws on concrete values: texts that are left alone, digits, sections,
//! caches and restored tokenizers.
use std::borrow::Cow;
use tokie::added::{parts_of, AddedTokenSpec};
use tokie::decoder::Decoder;
use tokie::encoder::backtracking::BacktrackingBytePairEncoder;
use tokie::encoder::cache::PretokenCache;
use tokie::encoder::check::tokens_fit;
use tokie::encoder::Encoder;
use tokie::normalizer::{bert_uncased_normalize, metaspace_normalize, metaspace_replace_normalize, Normalizer};
use tokie::padding::{TruncationDirection, TruncationParams};
use tokie::postprocessor::PostProcessor;
use tokie::pretok::{PretokType, Pretokenizer};
use tokie::pretokie::batch::batch_masks;
use tokie::pretokie::configs::{Cl100kConfig, Gpt2Config};
use tokie::pretokie::mask::scalar_advance;
use tokie::serde::added_section::{deserialize_added_tokens, serialize_added_tokens};
use tokie::tokenizer::Tokenizer;

fn borrowed(c: &Cow<str>) -> bool {
    matches!(c, Cow::Borrowed(_))
}

#[test]
fn whitespace_of_any_kind_keeps_the_metaspace_away() {
    assert_eq!(metaspace_normalize("\nfoo"), "\nfoo");
    assert_eq!(metaspace_normalize("\tfoo"), "\tfoo");
    assert_eq!(metaspace_normalize("\u{3000}foo"), "\u{3000}foo");
    assert_eq!(metaspace_normalize(" foo"), "\u{2581}foo");
    assert_eq!(metaspace_normalize("foo"), "\u{2581}foo");
}

#[test]
fn texts_that_stay_are_borrowed() {
    assert!(borrowed(&bert_uncased_normalize("straße")));
    assert!(!borrowed(&bert_uncased_normalize("Straße")));
    assert!(borrowed(&metaspace_replace_normalize("foo")));
    assert!(!borrowed(&metaspace_replace_normalize("foo bar")));
    assert!(borrowed(&Normalizer::Nfc.normalize("caf\u{e9}")));
    assert!(!borrowed(&Normalizer::Nfc.normalize("cafe\u{301}")));
}

#[test]
fn cleaning_twice_is_cleaning_once() {
    let once = Normalizer::BertCased.normalize("a\u{0}b\tc\u{FFFD}\u{4f60}").into_owned();
    let twice = Normalizer::BertCased.normalize(&once);
    assert!(borrowed(&twice));
    assert_eq!(twice, once.as_str());
}

#[test]
fn scalar_advance_stays_at_the_end() {
    assert_eq!(scalar_advance::<Gpt2Config>("ab", 2), 2);
    assert_eq!(scalar_advance::<Gpt2Config>("", 0), 0);
    assert_eq!(scalar_advance::<Gpt2Config>("ab cd", 0), 2);
    assert_eq!(scalar_advance::<Gpt2Config>("ab cd", 2), 5);
    assert_eq!(scalar_advance::<Cl100kConfig>("12345", 0), 3);
}

#[test]
fn digits_by_mode() {
    let text = "ab 1234567x";
    assert_eq!(Pretokenizer::Gpt2.for_each_piece(text), vec!["ab", " 1234567", "x"]);
    assert_eq!(Pretokenizer::Cl100k.for_each_piece(text), vec!["ab", " ", "123", "456", "7", "x"]);
    assert_eq!(
        Pretokenizer::Qwen.for_each_piece(text),
        vec!["ab", " ", "1", "2", "3", "4", "5", "6", "7", "x"]
    );
    assert_eq!(Pretokenizer::Cl100k.for_each_piece("\u{2461}12"), vec!["\u{2461}12"]);
}

#[test]
fn pieces_of_both_kinds_are_the_same() {
    for p in [Pretokenizer::Gpt2, Pretokenizer::Bert, Pretokenizer::DeepSeek, Pretokenizer::O200k] {
        let text = "It's 12345 caf\u{e9}s, \u{4f60}\u{597d}!\n\n  end";
        let mut it = p.split(text);
        let mut one_by_one = Vec::new();
        while let Some(piece) = it.next() {
            one_by_one.push(piece);
        }
        assert_eq!(one_by_one, p.for_each_piece(text));
    }
}

fn token(id: u32, text: &str, special: bool) -> AddedTokenSpec {
    AddedTokenSpec {
        id,
        bytes: text.as_bytes().to_vec(),
        special,
        lstrip: false,
        rstrip: true,
        normalized: false,
        single_word: false,
    }
}

#[test]
fn tokens_of_a_section_and_nothing_else() {
    let tokens = vec![token(7, "<a>", true), token(8, "<b>", false)];
    let specials = vec![("<c>".to_string(), 9), ("<a>".to_string(), 7)];
    let data = serialize_added_tokens(&tokens, &specials);
    let (read, mut read_specials) = deserialize_added_tokens(&data).unwrap();
    assert_eq!(read.len(), 2);
    for (a, b) in read.iter().zip(&tokens) {
        assert_eq!((a.id, &a.bytes, a.special, a.rstrip), (b.id, &b.bytes, b.special, b.rstrip));
    }
    read_specials.sort();
    assert_eq!(read_specials, vec![("<a>".to_string(), 7), ("<c>".to_string(), 9)]);
}

#[test]
fn every_cut_of_a_post_processor_is_refused() {
    let template = PostProcessor::Template {
        single_prefix: vec![1, 2],
        single_suffix: vec![3],
        pair_a_prefix: vec![],
        pair_a_suffix: vec![4],
        pair_b_prefix: vec![5, 6, 7],
        pair_b_suffix: vec![],
    };
    for p in [template, PostProcessor::bert(101, 102), PostProcessor::Prefix { bos_token: 1 }] {
        let data = p.serialize();
        assert!(PostProcessor::deserialize(p.type_id(), &data).is_some());
        for n in 0..data.len() {
            assert!(PostProcessor::deserialize(p.type_id(), &data[..n]).is_none(), "{n}");
        }
    }
}

fn found(cache: &PretokenCache, key: &[u8]) -> Option<Vec<u32>> {
    let mut out = Vec::new();
    if cache.get(key, &mut out) {
        Some(out)
    } else {
        None
    }
}

#[test]
fn a_hit_is_the_latest_insert() {
    let mut cache = PretokenCache::with_bits(10);
    cache.insert(b"a", &[1]);
    cache.insert(b"b", &[2, 3]);
    cache.insert(b"a", &[4, 5, 6]);
    assert_eq!(found(&cache, b"a"), Some(vec![4, 5, 6]));
    assert_eq!(found(&cache, b"b"), Some(vec![2, 3]));
    cache.insert(b"a", &[1, 2, 3, 4]);
    assert_eq!(found(&cache, b"a"), Some(vec![4, 5, 6]));
    let mut latest = std::collections::HashMap::new();
    for round in 0u32..3 {
        for k in 0u32..5000 {
            let key = k.to_le_bytes();
            cache.insert(&key, &[k + round]);
            latest.insert(key, k + round);
        }
    }
    let mut hits = 0;
    for (key, value) in &latest {
        if let Some(v) = found(&cache, key) {
            assert_eq!(v, vec![*value]);
            hits += 1;
        }
    }
    assert!(hits > 0 && hits < 5000);
}

fn make(merges: &[(u32, u32)], pretok: PretokType) -> Tokenizer {
    let base: Vec<Vec<u8>> = (0u8..=255).map(|b| vec![b]).collect();
    let (encoder, tokens) = BacktrackingBytePairEncoder::from_merges(merges, &base);
    Tokenizer::new(
        Encoder::Backtracking(encoder),
        Decoder::new(&tokens),
        pretok,
        Normalizer::Absent,
        PostProcessor::bert(101, 102),
    )
}

#[test]
fn merges_spell_the_text() {
    let t = make(&[(97, 98), (256, 99), (99, 100), (257, 100)], PretokType::Absent);
    for text in ["abcd", "abcabcd", "dcba", "aabbccdd", "\u{e9}abcd"] {
        let ids = t.encode_raw(text);
        assert_eq!(t.decode_bytes(&ids), text.as_bytes());
    }
    assert_eq!(t.encode_raw("abcd"), vec![259]);
}

#[test]
fn a_restored_tokenizer_encodes_and_decodes_alike() {
    let mut t = make(&[(97, 98), (256, 99)], PretokType::Gpt2);
    assert!(t.try_set_added_tokens(&[token(300, "<x>", true)]));
    let loaded = Tokenizer::load(&t.save()).unwrap();
    for text in ["abc abc", "ab<x> c", "", "caf\u{e9} 123"] {
        for special in [false, true] {
            let e = t.encode(text, special);
            assert_eq!(loaded.encode(text, special), e);
        }
        let ids = t.encode_raw("abc \u{e9}");
        assert_eq!(loaded.decode(&ids), t.decode(&ids));
    }
}

#[test]
fn a_short_text_is_encoded_alike_with_normalized_tokens() {
    let mut t = make(&[(97, 98)], PretokType::Gpt2);
    let mut x = token(300, "abc", false);
    x.normalized = true;
    assert!(t.try_set_added_tokens(&[x]));
    t.set_workers(4);
    let texts = ["zabcz ab", "abc", "none"];
    for text in texts {
        let mut cache = None;
        assert_eq!(t.encode_raw_ctx(text, &mut cache, false), t.encode_raw(text));
    }
}

#[test]
fn whitespace_by_code_point() {
    let spaces: Vec<u32> = (0..=0x10FFFFu32)
        .filter_map(char::from_u32)
        .filter(|c| c.is_whitespace())
        .map(|c| c as u32)
        .collect();
    let mut stated: Vec<u32> = (0x09..=0x0D).collect();
    stated.extend([0x20, 0x85, 0xA0, 0x1680]);
    stated.extend(0x2000..=0x200A);
    stated.extend([0x2028, 0x2029, 0x202F, 0x205F, 0x3000]);
    assert_eq!(spaces, stated);
}

fn byte_tokenizer(merges: &[(u32, u32)], post: PostProcessor) -> Tokenizer {
    let base: Vec<Vec<u8>> = (0u8..=255).map(|b| vec![b]).collect();
    let (encoder, tokens) = BacktrackingBytePairEncoder::from_merges(merges, &base);
    let decoder = Decoder::new(&tokens);
    Tokenizer::new(Encoder::Backtracking(encoder), decoder, PretokType::Absent, Normalizer::Absent, post)
}

#[test]
fn offsets_go_by_place() {
    let t = byte_tokenizer(&[], PostProcessor::Prefix { bos_token: b'a' as u32 });
    let e = t.encode_with_offsets("ab", true);
    assert_eq!(e.ids, vec![97, 97, 98]);
    assert_eq!(e.offsets, vec![(0, 0), (0, 1), (1, 2)]);
    let t = byte_tokenizer(&[], PostProcessor::bert(b'a' as u32, b'b' as u32));
    let e = t.encode_with_offsets("bac", true);
    assert_eq!(e.ids, vec![97, 98, 97, 99, 98]);
    assert_eq!(e.offsets, vec![(0, 0), (0, 1), (1, 2), (2, 3), (0, 0)]);
    assert_eq!(t.encode_with_offsets("", true).offsets, vec![(0, 0), (0, 0)]);
    let mut t = t;
    t.enable_truncation(TruncationParams {
        max_length: 4,
        direction: TruncationDirection::Left,
        ..Default::default()
    });
    let e = t.encode_with_offsets("xyab", true);
    assert_eq!(e.ids, vec![97, 97, 98, 98]);
    assert_eq!(e.offsets, vec![(0, 0), (2, 3), (3, 4), (0, 0)]);
    assert_eq!(PostProcessor::bert(1, 2).num_prefix_tokens_single(), 1);
    assert_eq!(PostProcessor::Absent.num_prefix_tokens_single(), 0);
}

#[test]
fn empty_tokens_can_be_merged() {
    let base = vec![Vec::new(), b"a".to_vec(), b"b".to_vec()];
    let (encoder, tokens) = BacktrackingBytePairEncoder::from_merges(&[(0, 1), (3, 2), (0, 0)], &base);
    assert_eq!(tokens[3], b"a");
    assert_eq!(tokens[4], b"ab");
    assert!(tokens[5].is_empty());
    assert_eq!(encoder.encode(b"aba", 1), vec![4, 3]);
    assert!(!encoder.is_valid_pair(3, 2));
    assert!(encoder.is_valid_pair(2, 3));
    assert!(encoder.is_valid_pair(2, 2));
}

#[test]
fn the_first_merge_of_a_token_is_its_split() {
    let entries: Vec<(u32, Vec<u8>)> =
        [&b"a"[..], b"b", b"ab", b"", b"ab"].iter().enumerate().map(|(i, t)| (i as u32, t.to_vec())).collect();
    let (encoder, tokens) =
        BacktrackingBytePairEncoder::from_vocab_and_merges(&entries, &[(4, 3), (0, 1)], 2);
    assert_eq!(tokens.len(), 5);
    let split = &encoder.split_table()[4];
    assert_eq!((split.left, split.right), (4, 3));
    let split = &encoder.split_table()[2];
    assert_eq!((split.left, split.right), (2, 2));
    assert_eq!(encoder.encode(b"ab", 1), vec![4]);
}

#[test]
fn long_tokens_have_room() {
    assert!(tokens_fit(&[vec![0u8; 0x200_0000], b"a".to_vec()]));
    assert!(tokens_fit(&vec![Vec::new(); 0x2_0000]));
}

fn spec(bytes: &str, lstrip: bool, rstrip: bool) -> AddedTokenSpec {
    AddedTokenSpec {
        id: 300,
        bytes: bytes.as_bytes().to_vec(),
        special: false,
        lstrip,
        rstrip,
        normalized: false,
        single_word: false,
    }
}

#[test]
fn parts_follow_each_other() {
    let specs = [spec("<m>", true, true)];
    let text = "ab  <m> \n<m>  c";
    let parts = parts_of(text, &[(0, 4, 7), (0, 9, 12)], &specs);
    assert_eq!(
        parts,
        vec![(None, 0, 2), (Some(0), 2, 9), (Some(0), 9, 14), (None, 14, 15)]
    );
    for w in parts.windows(2) {
        assert_eq!(w[0].2, w[1].1);
    }
    let stripped = [spec("<m>", false, true), spec(" b", false, false)];
    let parts = parts_of("<m> bc", &[(0, 0, 3), (1, 3, 5)], &stripped);
    assert_eq!(parts, vec![(Some(0), 0, 4), (Some(1), 3, 5), (None, 5, 6)]);
}

#[test]
fn a_short_document_is_encoded_as_alone() {
    let mut t = byte_tokenizer(&[(97, 98)], PostProcessor::bert(1, 2));
    t.set_added_tokens(&[spec("<m>", true, true)]);
    let docs: [&[u8]; 3] = [b"ab <m> ab", b"", b"xab<m>\xff"];
    let (ids, lens) = t.encode_docs_bytes_flat(&docs, true);
    let mut start = 0;
    for (d, n) in docs.iter().zip(lens) {
        let end = start + n as usize;
        assert_eq!(ids[start..end], t.encode_ids(&String::from_utf8_lossy(d), true));
        start = end;
    }
    assert_eq!(start, ids.len());
}

#[test]
fn a_short_batch_is_bad() {
    assert_eq!(batch_masks::<Gpt2Config>("ab", 0), (0, u64::MAX));
    assert_eq!(batch_masks::<Gpt2Config>("ab", 5), (0, u64::MAX));
    assert_eq!(batch_masks::<Gpt2Config>("", usize::MAX), (0, u64::MAX));
}
