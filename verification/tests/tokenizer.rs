//! The tokenizer as a whole.
use tokie::decoder::Decoder;
use tokie::encoder::backtracking::BacktrackingBytePairEncoder;
use tokie::encoder::Encoder;
use tokie::normalizer::Normalizer;
use tokie::padding::{PaddingDirection, PaddingParams, PaddingStrategy, TruncationParams};
use tokie::postprocessor::PostProcessor;
use tokie::pretok::PretokType;
use tokie::tokenizer::model::PARALLEL_CHUNK_THRESHOLD;
use tokie::tokenizer::stream::CountOrder;
use tokie::tokenizer::Tokenizer;
use tokie::types::TokenId;

fn make_tokenizer() -> Tokenizer {
    let base_tokens: Vec<Vec<u8>> = (0u8..=255).map(|b| vec![b]).collect();
    let merges = vec![(b'a' as u32, b'b' as u32)];
    let (encoder, token_bytes) = BacktrackingBytePairEncoder::from_merges(&merges, &base_tokens);
    let decoder = Decoder::new(&token_bytes);
    Tokenizer::new(Encoder::Backtracking(encoder), decoder, PretokType::Absent, Normalizer::Absent, PostProcessor::Absent)
}

fn make_pretok_tokenizer() -> Tokenizer {
    let base_tokens: Vec<Vec<u8>> = (0u8..=255).map(|b| vec![b]).collect();
    let merges = vec![(b'a' as u32, b'b' as u32)];
    let (encoder, token_bytes) = BacktrackingBytePairEncoder::from_merges(&merges, &base_tokens);
    let decoder = Decoder::new(&token_bytes);
    Tokenizer::new(Encoder::Backtracking(encoder), decoder, PretokType::Gpt2, Normalizer::Absent, PostProcessor::Absent)
}

fn make_bert_tokenizer() -> Tokenizer {
    let base_tokens: Vec<Vec<u8>> = (0u8..=255).map(|b| vec![b]).collect();
    let merges = vec![(b'a' as u32, b'b' as u32)];
    let (encoder, token_bytes) = BacktrackingBytePairEncoder::from_merges(&merges, &base_tokens);
    let decoder = Decoder::new(&token_bytes);
    Tokenizer::new(Encoder::Backtracking(encoder), decoder, PretokType::Absent, Normalizer::Absent, PostProcessor::bert(101, 102))
}

#[test]
fn test_no_pretokenizer() {
    let tokenizer = make_tokenizer();
    let enc = tokenizer.encode("abc", false);
    assert_eq!(enc.ids.len(), 2);
}

#[test]
fn test_encode_returns_encoding() {
    let tokenizer = make_tokenizer();
    let enc = tokenizer.encode("abc", false);
    assert_eq!(enc.ids.len(), enc.attention_mask.len());
    assert_eq!(enc.ids.len(), enc.type_ids.len());
    assert!(enc.attention_mask.iter().all(|&m| m == 1));
    assert!(enc.type_ids.iter().all(|&t| t == 0));
}

#[test]
fn test_with_pretokenizer() {
    let tokenizer = make_pretok_tokenizer();
    let enc = tokenizer.encode("Hello world", false);
    assert!(!enc.ids.is_empty());
    let decoded = tokenizer.decode(&enc.ids).unwrap();
    assert_eq!(decoded, "Hello world");
}

#[test]
fn test_count_tokens() {
    let tokenizer = make_pretok_tokenizer();
    let text = "Hello world";
    let count = tokenizer.count_tokens(text);
    let enc = tokenizer.encode(text, false);
    assert_eq!(count, enc.ids.len());
}

#[test]
fn test_token_count_comparisons() {
    let tokenizer = make_pretok_tokenizer();
    let text = "Hello world test";
    let total = tokenizer.count_tokens(text);
    assert_eq!(tokenizer.token_count(text).compare(total - 1), Some(CountOrder::Greater));
    assert_ne!(tokenizer.token_count(text).compare(total), Some(CountOrder::Greater));
    assert_eq!(tokenizer.token_count(text).compare(total + 1), Some(CountOrder::Less));
    assert_ne!(tokenizer.token_count(text).compare(total), Some(CountOrder::Less));
    assert_eq!(tokenizer.token_count(text).compare(total), Some(CountOrder::Equal));
}

#[test]
fn test_encode_iter() {
    let tokenizer = make_pretok_tokenizer();
    let text = "Hello world";
    let mut iter = tokenizer.encode_iter(text);
    let mut tokens = Vec::new();
    while let Some(token) = iter.next() {
        tokens.push(token);
    }
    let expected = tokenizer.encode_raw(text);
    assert_eq!(tokens, expected);
}

#[test]
fn test_decode_bytes() {
    let tokenizer = make_tokenizer();
    let text = b"abc";
    let tokens = tokenizer.encode_bytes(text);
    let decoded = tokenizer.decode_bytes(&tokens);
    assert_eq!(decoded, text);
}

#[test]
fn test_encode_batch_empty() {
    let tokenizer = make_tokenizer();
    let result = tokenizer.encode_batch(&[], false);
    assert!(result.is_empty());
}

#[test]
fn test_encode_batch_single() {
    let tokenizer = make_pretok_tokenizer();
    let single = tokenizer.encode("Hello world", false);
    let batch = tokenizer.encode_batch(&["Hello world"], false);
    assert_eq!(batch.len(), 1);
    assert_eq!(batch[0], single);
}

#[test]
fn test_encode_batch_multiple() {
    let tokenizer = make_pretok_tokenizer();
    let texts = vec!["Hello world", "abc def", "test"];
    let batch = tokenizer.encode_batch(&texts, false);
    assert_eq!(batch.len(), 3);
    for (i, text) in texts.iter().enumerate() {
        assert_eq!(batch[i], tokenizer.encode(text, false));
    }
}

#[test]
fn test_encode_batch_preserves_order() {
    let tokenizer = make_pretok_tokenizer();
    let texts: Vec<&str> = (0..20).map(|i| match i % 4 {
        0 => "alpha",
        1 => "beta gamma",
        2 => "delta epsilon zeta",
        _ => "x",
    }).collect();
    let batch = tokenizer.encode_batch(&texts, false);
    assert_eq!(batch.len(), texts.len());
    for (i, text) in texts.iter().enumerate() {
        assert_eq!(batch[i], tokenizer.encode(text, false));
    }
}

#[test]
fn test_encode_batch_with_special_tokens() {
    let tokenizer = make_pretok_tokenizer();
    let texts = vec!["Hello", "world"];
    let batch_with = tokenizer.encode_batch(&texts, true);
    let batch_without = tokenizer.encode_batch(&texts, false);
    assert_eq!(batch_with, batch_without);
}

#[test]
fn test_encode_batch_flat_matches_encode_batch() {
    let tokenizer = make_pretok_tokenizer();
    // Enough texts to cross the parallel threshold (texts.len() > cpus)
    let texts: Vec<&str> = (0..64).map(|i| match i % 5 {
        0 => "Hello world, this is a somewhat longer document to encode.",
        1 => "abc def ghi",
        2 => "",
        3 => "short",
        _ => "the quick brown fox jumps over the lazy dog 0123456789",
    }).collect();
    let (flat, lens) = tokenizer.encode_batch_flat(&texts, false);
    let batch = tokenizer.encode_batch(&texts, false);
    assert_eq!(lens.len(), texts.len());
    assert_eq!(flat.len() as u64, lens.iter().sum::<u64>());
    let mut off = 0usize;
    for (i, enc) in batch.iter().enumerate() {
        let n = lens[i] as usize;
        assert_eq!(&flat[off..off + n], enc.ids.as_slice(), "doc {i}");
        off += n;
    }
    assert_eq!(off, flat.len());
}

#[test]
fn test_encode_batch_flat_empty() {
    let tokenizer = make_pretok_tokenizer();
    let (flat, lens) = tokenizer.encode_batch_flat(&[], false);
    assert!(flat.is_empty() && lens.is_empty());
}

/// Unfused per-piece reference: full-text pretokenization, each piece
/// encoded independently through the ground-truth `Encoder::encode`.
/// No caches, no chunking, no fused loop.
fn reference_encode(tokenizer: &Tokenizer, text: &str) -> Vec<TokenId> {
    let pretok = tokenizer.pretokenizer().expect("pretokenizer");
    let mut out = Vec::new();
    let mut pieces = pretok.split(text);
    while let Some(piece) = pieces.next() {
        out.extend(tokenizer.encoder().encode(piece.as_bytes(), 1));
    }
    out
}

fn tricky_texts() -> Vec<String> {
    vec![
        String::new(),
        " ".to_string(),
        "Hello world".to_string(),
        "don't we're I'll O'Toole don'ts".to_string(),
        "a\n\nb  c   d\te".to_string(),
        "日本語のテキスト and English, русский текст".to_string(),
        "money $100.99, 50% off! e.g. Dr. Smith's co-op".to_string(),
        // Pieces over the 15-byte cache key limit (long letter runs)
        "Supercalifragilisticexpialidocious antidisestablishmentarianism".to_string(),
        "aaaaaaaaaaaaaaaaaaaaaaaaaaaaaaaaaaaaaaab".to_string(),
        "«ab» ¹²³ ½ cup \u{200B}école".to_string(),
    ]
}

#[test]
fn test_fused_sequential_matches_reference() {
    let tokenizer = make_pretok_tokenizer();
    for text in tricky_texts() {
        let expect = reference_encode(&tokenizer, &text);
        // Twice: second pass reads pooled-cache entries the first inserted.
        for pass in 0..2 {
            let got = tokenizer.encode(&text, false).ids;
            assert_eq!(got, expect, "pass {pass}, text {:?}", text);
            assert_eq!(tokenizer.count_tokens(&text), expect.len(), "count, text {:?}", text);
        }
    }
}

#[test]
fn test_parallel_path_matches_reference() {
    // A document over PARALLEL_CHUNK_THRESHOLD is cut into chunks
    // (chunked); output must equal the
    // unchunked per-piece reference.
    let tokenizer = make_pretok_tokenizer();
    let atom = "The quick brown fox! Ate 1234 grapes, don't ask — «why?» \u{200B}école 日本語 ";
    let big: String = atom.repeat(2 * PARALLEL_CHUNK_THRESHOLD / atom.len());
    assert!(big.len() > PARALLEL_CHUNK_THRESHOLD);
    let expect = reference_encode(&tokenizer, &big);
    assert_eq!(tokenizer.encode(&big, false).ids, expect);
    assert_eq!(tokenizer.count_tokens(&big), expect.len());
}

#[test]
fn test_batch_with_large_doc_matches_reference() {
    // A large doc inside a batch is not cut into chunks and must still match
    // both the reference and the standalone (chunked) result.
    let tokenizer = make_pretok_tokenizer();
    let atom = "Words, numbers 42 and unicode — ½ cup of \u{AD}soft hyphens. ";
    let big: String = atom.repeat(2 * PARALLEL_CHUNK_THRESHOLD / atom.len());
    let mut texts: Vec<&str> = vec!["Hello world", "", "don't", &big, "tail piece"];
    // Enough docs for the work to be cut into batches.
    for _ in 0..32 {
        texts.push("filler doc with some text 123");
    }
    let counts = tokenizer.count_tokens_batch(&texts);
    let encs = tokenizer.encode_batch(&texts, false);
    for (i, t) in texts.iter().enumerate() {
        let expect = reference_encode(&tokenizer, t);
        assert_eq!(encs[i].ids, expect, "doc {i}");
        assert_eq!(counts[i], expect.len(), "doc {i}");
    }
    let (flat, lens) = tokenizer.encode_batch_flat(&texts, false);
    let mut off = 0usize;
    for (i, t) in texts.iter().enumerate() {
        let expect = reference_encode(&tokenizer, t);
        assert_eq!(&flat[off..off + lens[i] as usize], &expect[..], "flat doc {i}");
        off += lens[i] as usize;
    }
}

#[test]
fn test_count_tokens_batch() {
    let tokenizer = make_pretok_tokenizer();
    let texts = vec!["Hello world", "abc", "test one two"];
    let counts = tokenizer.count_tokens_batch(&texts);
    assert_eq!(counts.len(), 3);
    for (i, text) in texts.iter().enumerate() {
        assert_eq!(counts[i], tokenizer.count_tokens(text));
    }
}

#[test]
fn test_count_tokens_batch_empty() {
    let tokenizer = make_tokenizer();
    let result = tokenizer.count_tokens_batch(&[]);
    assert!(result.is_empty());
}

// --- buffers of many documents ---

/// Reference result: split on `sep`, drop empties, lossy-convert,
/// encode each doc with `encode_batch` and concatenate.
fn reference_files(
    tokenizer: &Tokenizer,
    contents: &[&[u8]],
    sep: &[u8],
) -> (Vec<TokenId>, Vec<u64>) {
    let mut docs: Vec<String> = Vec::new();
    for buf in contents {
        let pieces: Vec<&[u8]> = if sep.is_empty() {
            vec![&buf[..]]
        } else {
            let mut out = Vec::new();
            let mut start = 0;
            for pos in memchr::memmem::find_iter(buf, sep) {
                out.push(&buf[start..pos]);
                start = pos + sep.len();
            }
            out.push(&buf[start..]);
            out
        };
        for p in pieces {
            if !p.is_empty() {
                docs.push(String::from_utf8_lossy(p).into_owned());
            }
        }
    }
    let refs: Vec<&str> = docs.iter().map(|s| s.as_str()).collect();
    let encs = tokenizer.encode_batch(&refs, false);
    let mut ids = Vec::new();
    let mut offsets = vec![0u64];
    for e in encs {
        ids.extend_from_slice(&e.ids);
        offsets.push(ids.len() as u64);
    }
    (ids, offsets)
}

fn assert_files_match(name: &str, contents: &[&[u8]], sep: &[u8]) {
    let tokenizer = make_pretok_tokenizer();
    let buffers: Vec<Vec<u8>> = contents.iter().map(|c| c.to_vec()).collect();
    let (ids, offsets) = tokenizer.encode_buffers_flat(&buffers, sep, false);
    let (want_ids, want_offsets) = reference_files(&tokenizer, contents, sep);
    assert_eq!(ids, want_ids, "{name}: ids mismatch");
    assert_eq!(offsets, want_offsets, "{name}: offsets mismatch");
}

#[test]
fn test_encode_files_multi_doc() {
    assert_files_match(
        "multi",
        &[b"Hello world<SEP>second doc here<SEP>and a third"],
        b"<SEP>",
    );
}

#[test]
fn test_encode_files_separator_at_edges() {
    // Separator at file start and end: leading/trailing empty docs are
    // dropped, matching Python's `[d for d in text.split(sep) if d]`.
    assert_files_match("edges", &[b"<SEP>middle doc<SEP>"], b"<SEP>");
}

#[test]
fn test_encode_files_consecutive_separators() {
    assert_files_match("consecutive", &[b"one<SEP><SEP><SEP>two"], b"<SEP>");
}

#[test]
fn test_encode_files_no_separator() {
    assert_files_match("nosep", &[b"just one document, no separator"], b"<SEP>");
}

#[test]
fn test_encode_files_non_utf8() {
    // Invalid UTF-8 must take the lossy path (U+FFFD), never panic.
    assert_files_match(
        "nonutf8",
        &[b"good doc<SEP>bad \xff\xfe bytes<SEP>trailing ok"],
        b"<SEP>",
    );
}

#[test]
fn test_encode_files_multiple_files() {
    assert_files_match(
        "multifile",
        &[
            b"file one doc a<SEP>file one doc b<SEP>",
            b"file two doc a",
            b"<SEP>file three doc a<SEP>file three doc b",
        ],
        b"<SEP>",
    );
}

#[test]
fn test_encode_files_empty_file() {
    assert_files_match("emptyfile", &[b"", b"only doc"], b"<SEP>");
}

#[test]
fn test_encode_files_empty_separator() {
    // Empty separator: each file is a single doc.
    assert_files_match("emptysep", &[b"whole file is one doc"], b"");
}

#[test]
fn test_encode_files_many_docs_parallel() {
    // Enough docs for the work to be cut into batches.
    let mut content = Vec::new();
    for i in 0..200 {
        content.extend_from_slice(
            format!("document number {i} with some text abc").as_bytes(),
        );
        content.extend_from_slice(b"<SEP>");
    }
    assert_files_match("parallel", &[&content], b"<SEP>");
}

#[test]
fn test_encode_files_special_tokens_fallback() {
    // add_special_tokens=true leaves the fused fast path; the
    // per-document fallback must still match encode_batch exactly.
    let tokenizer = make_bert_tokenizer();
    let buffers: Vec<Vec<u8>> = vec![b"abc<SEP>ab ab<SEP>zz".to_vec()];
    let (ids, offsets) = tokenizer.encode_buffers_flat(&buffers, b"<SEP>", true);
    let encs = tokenizer.encode_batch(&["abc", "ab ab", "zz"], true);
    let mut want = Vec::new();
    let mut want_offsets = vec![0u64];
    for e in encs {
        want.extend_from_slice(&e.ids);
        want_offsets.push(want.len() as u64);
    }
    assert_eq!(ids, want);
    assert_eq!(offsets, want_offsets);
}

#[test]
fn test_encode_files_truncation_fallback() {
    // Truncation also leaves the fused fast path.
    let mut tokenizer = make_pretok_tokenizer();
    tokenizer.enable_truncation(TruncationParams { max_length: 2, ..Default::default() });
    let buffers: Vec<Vec<u8>> = vec![b"Hello world again<SEP>ab".to_vec()];
    let (ids, offsets) = tokenizer.encode_buffers_flat(&buffers, b"<SEP>", false);
    let encs = tokenizer.encode_batch(&["Hello world again", "ab"], false);
    let mut want = Vec::new();
    for e in encs {
        want.extend_from_slice(&e.ids);
    }
    assert_eq!(ids, want);
    assert_eq!(offsets.len(), 3);
}

#[test]
fn test_count_tokens_files() {
    let tokenizer = make_pretok_tokenizer();
    let content: &[u8] = b"Hello world<SEP>second doc<SEP>third one here";
    let buffers: Vec<Vec<u8>> = vec![content.to_vec()];
    let total = tokenizer.count_tokens_buffers(&buffers, b"<SEP>").unwrap();
    let (ids, _) = tokenizer.encode_buffers_flat(&buffers, b"<SEP>", false);
    assert_eq!(total, ids.len());
}

#[test]
fn test_vocab_access() {
    let tokenizer = make_tokenizer();
    // Token 97 = 'a', Token 98 = 'b', Token 256 = 'ab'
    assert_eq!(tokenizer.id_to_token(97).unwrap(), "a");
    assert_eq!(tokenizer.id_to_token(98).unwrap(), "b");
    assert_eq!(tokenizer.token_to_id("a"), Some(97));
    assert_eq!(tokenizer.token_to_id("b"), Some(98));
    assert!(tokenizer.id_to_token(999999).is_none());
    assert!(tokenizer.token_to_id("nonexistent_token_xyz").is_none());

    let vocab = tokenizer.get_vocab();
    // Vocab may have fewer entries than vocab_size due to lossy UTF-8 collisions
    assert!(vocab.len() <= tokenizer.vocab_size());
    assert!(vocab.len() > 0);
    assert!(vocab.contains(&("a".to_string(), 97)));
}

// --- Truncation tests ---

#[test]
fn test_encode_with_truncation() {
    let mut tokenizer = make_tokenizer();
    tokenizer.enable_truncation(TruncationParams {
        max_length: 3,
        ..Default::default()
    });
    let enc = tokenizer.encode("abcde", false);
    assert!(enc.ids.len() <= 3);
}

#[test]
fn test_encode_truncation_preserves_special_tokens() {
    let mut tokenizer = make_bert_tokenizer();
    tokenizer.enable_truncation(TruncationParams {
        max_length: 4,
        ..Default::default()
    });
    let enc = tokenizer.encode("abcde", true);
    assert!(enc.ids.len() <= 4);
    assert_eq!(enc.ids[0], 101);
    assert_eq!(*enc.ids.last().unwrap(), 102);
}

#[test]
fn test_encode_pair_with_truncation() {
    let mut tokenizer = make_bert_tokenizer();
    tokenizer.enable_truncation(TruncationParams {
        max_length: 7,
        ..Default::default()
    });
    let enc = tokenizer.encode_pair("abcde", "fghij", true);
    assert!(enc.ids.len() <= 7);
    assert_eq!(enc.ids[0], 101);
}

// --- Padding tests ---

#[test]
fn test_encode_batch_with_padding() {
    let mut tokenizer = make_tokenizer();
    tokenizer.enable_padding(PaddingParams {
        strategy: PaddingStrategy::BatchLongest,
        pad_id: 0,
        ..Default::default()
    });
    let batch = tokenizer.encode_batch(&["ab", "abcde"], false);
    assert_eq!(batch[0].ids.len(), batch[1].ids.len());
    assert!(batch[0].attention_mask.iter().any(|&m| m == 0));
    assert!(batch[1].attention_mask.iter().all(|&m| m == 1));
}

#[test]
fn test_encode_with_fixed_padding() {
    let mut tokenizer = make_tokenizer();
    tokenizer.enable_padding(PaddingParams {
        strategy: PaddingStrategy::Fixed(10),
        pad_id: 0,
        ..Default::default()
    });
    let enc = tokenizer.encode("ab", false);
    assert_eq!(enc.ids.len(), 10);
    assert_eq!(enc.attention_mask.iter().filter(|&&m| m == 0).count(), 10 - 1);
}

#[test]
fn test_encode_batch_with_fixed_padding() {
    let mut tokenizer = make_tokenizer();
    tokenizer.enable_padding(PaddingParams {
        strategy: PaddingStrategy::Fixed(8),
        pad_id: 0,
        ..Default::default()
    });
    let batch = tokenizer.encode_batch(&["ab", "cd", "e"], false);
    assert!(batch.iter().all(|e| e.ids.len() == 8));
}

#[test]
fn test_encode_batch_left_padding() {
    let mut tokenizer = make_tokenizer();
    tokenizer.enable_padding(PaddingParams {
        strategy: PaddingStrategy::Fixed(5),
        direction: PaddingDirection::Left,
        pad_id: 0,
        ..Default::default()
    });
    let enc = tokenizer.encode("ab", false);
    assert_eq!(enc.ids.len(), 5);
    assert_eq!(enc.attention_mask[0], 0);
    assert_eq!(*enc.attention_mask.last().unwrap(), 1);
}

#[test]
fn test_no_padding_no_truncation_defaults() {
    let tokenizer = make_tokenizer();
    assert!(tokenizer.padding().is_none());
    assert!(tokenizer.truncation().is_none());
    assert!(tokenizer.pad_token_id().is_none());
}

#[test]
fn test_config_methods() {
    let mut tokenizer = make_tokenizer();
    tokenizer.enable_padding(PaddingParams::default());
    assert!(tokenizer.padding().is_some());
    tokenizer.no_padding();
    assert!(tokenizer.padding().is_none());

    tokenizer.enable_truncation(TruncationParams::default());
    assert!(tokenizer.truncation().is_some());
    tokenizer.no_truncation();
    assert!(tokenizer.truncation().is_none());

    tokenizer.set_pad_token_id(0);
    assert_eq!(tokenizer.pad_token_id(), Some(0));
}

// --- Offset tests ---

#[test]
fn test_encode_with_offsets_basic() {
    let tokenizer = make_tokenizer();
    let enc = tokenizer.encode_with_offsets("abc", false);
    // "abc" with merges a+b -> ab: tokens are [ab, c]
    assert_eq!(enc.ids.len(), 2);
    assert_eq!(enc.offsets.len(), 2);
    // "ab" covers bytes 0..2, "c" covers bytes 2..3
    assert_eq!(enc.offsets[0], (0, 2));
    assert_eq!(enc.offsets[1], (2, 3));
}

#[test]
fn test_encode_with_offsets_single_byte() {
    let tokenizer = make_tokenizer();
    let enc = tokenizer.encode_with_offsets("x", false);
    assert_eq!(enc.ids.len(), 1);
    assert_eq!(enc.offsets, vec![(0, 1)]);
}

#[test]
fn test_encode_with_offsets_contiguous() {
    // Verify offsets are contiguous (end of one = start of next)
    let tokenizer = make_pretok_tokenizer();
    let text = "Hello world";
    let enc = tokenizer.encode_with_offsets(text, false);
    assert_eq!(enc.ids.len(), enc.offsets.len());
    // Each offset should be valid byte range
    for &(start, end) in &enc.offsets {
        assert!(start <= end);
        assert!(end <= text.len());
    }
}

#[test]
fn test_encode_with_offsets_roundtrip() {
    // Verify reconstructing text from offsets gives the original
    let tokenizer = make_tokenizer();
    let text = "abcde";
    let enc = tokenizer.encode_with_offsets(text, false);
    let mut reconstructed = String::new();
    for &(start, end) in &enc.offsets {
        reconstructed.push_str(&text[start..end]);
    }
    assert_eq!(reconstructed, text);
}

#[test]
fn test_encode_with_offsets_special_tokens() {
    let tokenizer = make_bert_tokenizer();
    let enc = tokenizer.encode_with_offsets("ab", true);
    // Should have [CLS] ab [SEP]
    assert_eq!(enc.ids[0], 101); // CLS
    assert_eq!(*enc.ids.last().unwrap(), 102); // SEP
    // Special tokens get (0, 0) offsets
    assert_eq!(enc.offsets[0], (0, 0));
    assert_eq!(*enc.offsets.last().unwrap(), (0, 0));
}

#[test]
fn test_encode_with_offsets_empty() {
    let tokenizer = make_tokenizer();
    let enc = tokenizer.encode_with_offsets("", false);
    assert!(enc.ids.is_empty());
    assert!(enc.offsets.is_empty());
}

#[test]
fn test_encode_with_offsets_truncation() {
    let mut tokenizer = make_tokenizer();
    tokenizer.enable_truncation(TruncationParams {
        max_length: 2,
        ..Default::default()
    });
    let enc = tokenizer.encode_with_offsets("abcde", false);
    assert!(enc.ids.len() <= 2);
    assert_eq!(enc.ids.len(), enc.offsets.len());
}
