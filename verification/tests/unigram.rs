use tokie::encoder::unigram::{
    collect_tokens_from_backptr, utf8_char_len, Edge, ScoredToken, UnigramEncoder,
};
use tokie::encoder::units;
use tokie::encoder::units::UnigramPieceCache;
use tokie::types::TokenId;

/// The word that holds each score.
fn words(vocab: &[(u32, Vec<u8>, f64)]) -> Vec<ScoredToken> {
    vocab.iter().map(|(id, b, s)| (*id, b.clone(), s.to_bits())).collect()
}

fn from_vocab(vocab: &[(u32, Vec<u8>, f64)], unk: TokenId) -> UnigramEncoder {
    UnigramEncoder::from_vocab_with_scores(&words(vocab), unk).0
}

/// Weigh the edges of a unit.
fn viterbi_unit(e: &UnigramEncoder, text: &[u8]) -> Vec<TokenId> {
    let scores: Vec<f64> = e.scores().iter().map(|w| f64::from_bits(*w)).collect();
    let penalty = if e.has_byte_fallback() { scores[e.unk_token() as usize] } else { -100.0 };
    let mut best = vec![f64::NEG_INFINITY; text.len() + 1];
    best[0] = 0.0;
    let mut search = e.search(text);
    while let Some((from, edge)) = search.next() {
        let own = if edge.unknown { penalty } else { scores[edge.token as usize] };
        let score = best[from] + own;
        let better = score > best[edge.end];
        if better {
            best[edge.end] = score;
        }
        search.answer(better);
    }
    e.finish(text, &search)
}

fn encode_single(e: &UnigramEncoder, text: &[u8]) -> Vec<TokenId> {
    let mut out = Vec::new();
    for (start, end) in units::units(text) {
        let toks = viterbi_unit(e, &text[start..end]);
        units::append_collapsing_unk(&mut out, &toks, e.unk_token());
    }
    out
}

fn encode_into(e: &UnigramEncoder, text: &[u8], cache: &mut UnigramPieceCache, out: &mut Vec<TokenId>) {
    if !e.unit_split_safe() {
        let toks = viterbi_unit(e, text);
        units::append_collapsing_unk(out, &toks, e.unk_token());
        return;
    }
    for (start, end) in units::units(text) {
        let unit = &text[start..end];
        if !e.append_cached(unit, cache, out) {
            let toks = viterbi_unit(e, unit);
            e.append_found(unit, &toks, cache, out);
        }
    }
}

fn encode(e: &UnigramEncoder, text: &[u8]) -> Vec<TokenId> {
    let mut cache = UnigramPieceCache::new();
    let mut out = Vec::new();
    encode_into(e, text, &mut cache, &mut out);
    out
}

#[test]
fn test_basic_unigram() {
    let vocab = vec![
        (0, b"h".to_vec(), -1.0),
        (1, b"e".to_vec(), -1.0),
        (2, b"l".to_vec(), -1.0),
        (3, b"o".to_vec(), -1.0),
        (4, b"hell".to_vec(), -2.0),
        (5, b"hello".to_vec(), -3.0),
    ];
    let encoder = from_vocab(&vocab, 0);
    assert_eq!(encode(&encoder, b"hello"), vec![5]);
    assert_eq!(encode(&encoder, b"h"), vec![0]);
}

#[test]
fn test_viterbi_chooses_best_path() {
    let vocab = vec![
        (0, b"a".to_vec(), -0.1),
        (1, b"b".to_vec(), -0.1),
        (2, b"ab".to_vec(), -10.0),
    ];
    let encoder = from_vocab(&vocab, 0);
    assert_eq!(encode(&encoder, b"ab"), vec![0, 1]);
}

#[test]
fn test_byte_fallback() {
    let vocab = vec![
        (0, b"<0x00>".to_vec(), -5.0),
        (1, b"<0x01>".to_vec(), -5.0),
        (2, b"<0xFF>".to_vec(), -5.0),
        (3, b"hello".to_vec(), -1.0),
    ];
    let encoder = from_vocab(&vocab, 0);
    assert_eq!(encoder.byte_tokens()[0x00], 0);
    assert_eq!(encoder.byte_tokens()[0x01], 1);
    assert_eq!(encoder.byte_tokens()[0xFF], 2);
}

#[test]
fn test_empty_input() {
    let vocab = vec![(0, b"a".to_vec(), -1.0)];
    let encoder = from_vocab(&vocab, 0);
    let empty: Vec<TokenId> = vec![];
    assert_eq!(encode(&encoder, b""), empty);
}

#[test]
fn test_vocab_size() {
    let vocab = vec![
        (0, b"a".to_vec(), -1.0),
        (1, b"b".to_vec(), -1.0),
        (2, b"c".to_vec(), -1.0),
    ];
    let encoder = from_vocab(&vocab, 0);
    assert_eq!(encoder.vocab_size(), 3);
    assert_eq!(encoder.num_base_tokens(), 3);
}

#[test]
fn test_unit_cache_matches_cold() {
    let mark = "▁".as_bytes();
    let vocab = vec![
        (0, mark.to_vec(), -1.0),
        (1, [mark, b"a"].concat(), -0.5),
        (2, b"a".to_vec(), -1.0),
        (3, b"b".to_vec(), -1.0),
        (4, [mark, b"b"].concat(), -0.5),
    ];
    let encoder = from_vocab(&vocab, 0);
    let text = [mark, b"a", mark, b"b", mark, b"a"].concat();
    let cold = encode_single(&encoder, &text);
    let mut cache = UnigramPieceCache::new();
    let mut warm = Vec::new();
    encode_into(&encoder, &text, &mut cache, &mut warm);
    assert_eq!(cold, warm);
    let mut warm2 = Vec::new();
    encode_into(&encoder, &text, &mut cache, &mut warm2);
    assert_eq!(cold, warm2);
}

fn mark() -> &'static [u8] {
    "▁".as_bytes()
}

fn interior_metaspace_vocab() -> (UnigramEncoder, Vec<TokenId>) {
    let vocab = vec![
        (0u32, [mark(), b"a", mark(), b"b"].concat(), -0.5),
        (1u32, [mark(), b"a"].concat(), -3.0),
        (2u32, [mark(), b"b"].concat(), -3.0),
        (3u32, b"a".to_vec(), -5.0),
        (4u32, b"b".to_vec(), -5.0),
        (5u32, mark().to_vec(), -5.0),
    ];
    (from_vocab(&vocab, 5), vec![0])
}

#[test]
fn test_interior_metaspace_forces_whole_string_viterbi() {
    let (encoder, whole_string_expected) = interior_metaspace_vocab();
    let text = [mark(), b"a", mark(), b"b"].concat();
    assert!(!encoder.unit_split_safe());
    assert_eq!(encode(&encoder, &text), whole_string_expected);
    let naive_split = encode_single(&encoder, &text);
    assert_eq!(naive_split, vec![1, 2]);
    assert_ne!(encode(&encoder, &text), naive_split);
    let mut cache = UnigramPieceCache::new();
    let mut warm = Vec::new();
    encode_into(&encoder, &text, &mut cache, &mut warm);
    assert_eq!(warm, whole_string_expected);
}

#[test]
fn test_normal_vocab_is_unit_split_safe() {
    let vocab = vec![
        (0u32, mark().to_vec(), -1.0),
        (1u32, [mark(), b"the"].concat(), -0.5),
        (2u32, [mark(), b"a"].concat(), -0.5),
        (3u32, b"t".to_vec(), -2.0),
        (4u32, b"h".to_vec(), -2.0),
        (5u32, b"e".to_vec(), -2.0),
        (6u32, b"a".to_vec(), -2.0),
    ];
    let encoder = from_vocab(&vocab, 0);
    assert!(encoder.unit_split_safe());
    let text = [mark(), b"the", mark(), b"a"].concat();
    let cold = encode_single(&encoder, &text);
    assert_eq!(encode(&encoder, &text), cold);
    assert_eq!(encode(&encoder, &text), vec![1, 2]);
}

#[test]
fn test_leading_metaspace_is_safe() {
    let vocab = vec![
        (0u32, mark().to_vec(), -1.0),
        (1u32, [mark(), b"word"].concat(), -0.5),
        (2u32, b"w".to_vec(), -2.0),
    ];
    assert!(from_vocab(&vocab, 0).unit_split_safe());
}

#[test]
fn edges_of_a_text() {
    let vocab = vec![
        (0u32, b"<unk>".to_vec(), 0.0),
        (1u32, b"a".to_vec(), -1.0),
        (2u32, b"ab".to_vec(), -1.0),
        (3u32, b"b".to_vec(), -1.0),
        (4u32, b"".to_vec(), -1.0),
        (5u32, b"<0x62>".to_vec(), -9.0),
        (6u32, b"<0x62>".to_vec(), -9.0),
        (7u32, b"a".to_vec(), -2.0),
    ];
    let e = from_vocab(&vocab, 0);
    let l = e.edges("abé".as_bytes());
    assert_eq!(l.len(), 4);
    let plain = |end: usize, token: u32| Edge { end, token, unknown: false };
    assert_eq!(l[0], vec![plain(1, 7), plain(2, 2)]);
    assert_eq!(l[1], vec![plain(2, 3), plain(2, 5)]);
    assert_eq!(l[2], vec![Edge { end: 4, token: 0, unknown: true }]);
    assert_eq!(l[3], vec![Edge { end: 4, token: 0, unknown: true }]);
    assert!(e.has_byte_fallback());
    assert_eq!(e.unk_token(), 0);
    assert_eq!(e.token_len(2), 2);
    assert!(e.is_valid_pair(1, 2));
}

#[test]
fn unknown_runs_collapse() {
    let vocab = vec![(0u32, b"<unk>".to_vec(), 0.0), (1u32, b"a".to_vec(), -1.0)];
    let e = from_vocab(&vocab, 0);
    assert_eq!(viterbi_unit(&e, "éüa¿é".as_bytes()), vec![0, 1, 0]);
    let back = [(9u32, 0usize), (0, 0), (0, 1), (3, 2), (0, 3), (0, 4)];
    assert_eq!(collect_tokens_from_backptr(&back, 5, 0), vec![0, 3, 0]);
    assert_eq!(collect_tokens_from_backptr(&back, 0, 0), Vec::<u32>::new());
    assert_eq!(collect_tokens_from_backptr(&back, 5, 7), vec![0, 0, 3, 0, 0]);
}

#[test]
fn bridging_takes_the_longest_short_token() {
    let long: &[u8] = b"abcdefghijklmnopqrst";
    let vocab = vec![
        (0u32, b"<unk>".to_vec(), 0.0),
        (1u32, b"xy".to_vec(), -1.0),
        (2u32, b"x".to_vec(), -1.0),
        (3u32, long.to_vec(), -1.0),
        (4u32, b"<0x21>".to_vec(), -1.0),
    ];
    let e = from_vocab(&vocab, 0);
    assert_eq!(e.encode_with_unk_bridging(b"xyx!?"), vec![1, 2, 4, 0]);
    assert_eq!(e.encode_with_unk_bridging(long), vec![3]);
    assert_eq!(e.encode_with_unk_bridging(b""), Vec::<u32>::new());
}

#[test]
fn dead_end_is_bridged() {
    let vocab = vec![(0u32, b"<unk>".to_vec(), 0.0), (1u32, b"ab".to_vec(), -1.0)];
    let mut vocab = vocab;
    vocab.push((2, b"bcd".to_vec(), -1.0));
    let e = from_vocab(&vocab, 0);
    // "abcd": the path by "ab" goes on with unknown characters.
    assert_eq!(viterbi_unit(&e, b"abcd"), vec![1, 0]);
}

#[test]
fn units_start_at_marks() {
    assert_eq!(units::units(b""), vec![]);
    assert_eq!(units::units(b"ab"), vec![(0, 2)]);
    let text = "▁a▁▁b";
    assert_eq!(units::units(text.as_bytes()), vec![(0, 4), (4, 7), (7, 11)]);
    assert_eq!(units::units("x▁a".as_bytes()), vec![(0, 1), (1, 5)]);
}

#[test]
fn cache_holds_short_and_long_units() {
    let mut cache = UnigramPieceCache::new();
    let mut out = Vec::new();
    let long = [7u8; 40];
    assert!(!cache.lookup(b"ab", &mut out));
    cache.insert(b"ab", &[1, 2]);
    cache.insert(&long, &[3]);
    cache.insert(b"ab\0", &[4]);
    cache.insert(b"", &[5]);
    cache.insert(b"none", &[]);
    assert!(cache.lookup(b"ab", &mut out));
    assert!(cache.lookup(&long, &mut out));
    assert!(cache.lookup(b"ab\0", &mut out));
    assert!(!cache.lookup(b"", &mut out));
    assert!(!cache.lookup(b"none", &mut out));
    assert!(!cache.lookup(b"abc", &mut out));
    assert_eq!(out, vec![1, 2, 3, 4]);
    cache.insert(b"ab", &[6]);
    assert!(cache.lookup(b"ab", &mut out));
    assert_eq!(out, vec![1, 2, 3, 4, 6]);
    cache.clear();
    assert!(!cache.lookup(b"ab", &mut out));
    assert!(!cache.lookup(&long, &mut out));
}

#[test]
fn joins_collapse_unknowns() {
    let mut out = vec![1, 0];
    units::append_collapsing_unk(&mut out, &[0, 0, 2], 0);
    assert_eq!(out, vec![1, 0, 2]);
    let mut out = vec![1, 0, 0, 0, 2];
    units::collapse_unk_join(&mut out, 2, 0);
    assert_eq!(out, vec![1, 0, 2]);
    let mut out = vec![0, 0];
    units::collapse_unk_join(&mut out, 0, 0);
    assert_eq!(out, vec![0, 0]);
    let mut out = vec![1, 0];
    units::collapse_unk_join(&mut out, 2, 0);
    assert_eq!(out, vec![1, 0]);
}

#[test]
fn lengths_of_characters() {
    assert_eq!(utf8_char_len(b'a'), 1);
    assert_eq!(utf8_char_len(0x80), 1);
    assert_eq!(utf8_char_len(0xC3), 2);
    assert_eq!(utf8_char_len(0xE2), 3);
    assert_eq!(utf8_char_len(0xF0), 4);
}

#[test]
fn parts_make_an_encoder() {
    let vocab = vec![
        (0u32, b"<unk>".to_vec(), 0.0),
        (1u32, b"a".to_vec(), -1.0),
        (2u32, b"<0x62>".to_vec(), -1.0),
    ];
    let (e, tokens) = UnigramEncoder::from_vocab_with_scores(&words(&vocab), 0);
    let f = UnigramEncoder::from_parts(
        e.matcher().clone(),
        e.scores().to_vec(),
        e.unk_token(),
        e.byte_tokens().to_vec(),
        e.token_lengths().to_vec(),
        &tokens,
    );
    assert_eq!(viterbi_unit(&f, b"abc"), viterbi_unit(&e, b"abc"));
    assert_eq!(viterbi_unit(&f, b"abc"), vec![1, 2, 0]);
    assert_eq!(f.encode_with_unk_bridging(b"ab"), vec![1, 2]);
}
