//! The backtracking byte pair encoder.
use tokie::decoder::VocabDecoder;
use tokie::encoder::backtracking::BacktrackingBytePairEncoder;
use tokie::encoder::cache::PretokenCache;

#[test]
fn test_encode_into_with_cache_matches_encode() {
    let base_tokens = vec![vec![b'a'], vec![b'b'], vec![b'c']];
    let merges = vec![(0, 1), (3, 2)]; // ab, abc
    let (encoder, _) = BacktrackingBytePairEncoder::from_merges(&merges, &base_tokens);
    let pieces: Vec<&[u8]> = vec![
        b"abc", b"ab", b"ba", b"cab", b"abcabcabc", b"a", b"",
        b"cccab", // 4 tokens: too long to cache, must still be correct
        b"abcabcabcabcabca", // 16 bytes: over the cache key limit
    ];
    let mut cache = PretokenCache::new();
    // Two passes: the second pass reads entries the first pass inserted
    for pass in 0..2 {
        for &p in &pieces {
            let expect = encoder.encode(p, 1);
            let mut got = Vec::new();
            encoder.encode_into(p, Some(&mut cache), 1, &mut got);
            assert_eq!(got, expect, "pass {pass}, piece {:?}", p);
        }
    }
    // And without a cache at all
    for &p in &pieces {
        let mut got = Vec::new();
        encoder.encode_into(p, None, 1, &mut got);
        assert_eq!(got, encoder.encode(p, 1), "no-cache piece {:?}", p);
    }
}

#[test]
fn test_from_merges() {
    let base_tokens = vec![vec![b'a'], vec![b'b'], vec![b'c']];
    let merges = vec![(0, 1), (3, 2)];

    let (encoder, token_bytes) = BacktrackingBytePairEncoder::from_merges(&merges, &base_tokens);
    let decoder = VocabDecoder::new(&token_bytes);

    assert_eq!(encoder.vocab_size(), 5);
    assert_eq!(encoder.num_base_tokens(), 3);
    assert_eq!(decoder.token_to_bytes(0), b"a");
    assert_eq!(decoder.token_to_bytes(3), b"ab");
    assert_eq!(decoder.token_to_bytes(4), b"abc");
}

#[test]
fn test_is_valid_pair() {
    let base_tokens = vec![vec![b'a'], vec![b'b'], vec![b'c']];
    let merges = vec![(0, 1)];

    let (encoder, _) = BacktrackingBytePairEncoder::from_merges(&merges, &base_tokens);

    assert!(!encoder.is_valid_pair(0, 1));
    assert!(encoder.is_valid_pair(3, 2));
    assert!(encoder.is_valid_pair(1, 2));
}

#[test]
fn test_encode_merged_token() {
    let base_tokens = vec![vec![b'a'], vec![b'b'], vec![b'c']];
    let merges = vec![(0, 1)];

    let (encoder, _) = BacktrackingBytePairEncoder::from_merges(&merges, &base_tokens);

    assert_eq!(encoder.encode(b"ab", 1), vec![3]);
    assert_eq!(encoder.encode(b"abc", 1), vec![3, 2]);
}

#[test]
fn test_early_exit() {
    let base_tokens = vec![vec![b'a'], vec![b'b'], vec![b'c']];
    let merges = vec![(0, 1), (3, 2)];

    let (encoder, _) = BacktrackingBytePairEncoder::from_merges(&merges, &base_tokens);

    // Single byte - early exit
    assert_eq!(encoder.encode(b"a", 1), vec![0]);

    // "ab" is token 3 - early exit
    assert_eq!(encoder.encode(b"ab", 1), vec![3]);

    // "abc" is token 4 - early exit
    assert_eq!(encoder.encode(b"abc", 1), vec![4]);
}

#[test]
fn test_encode_decode_roundtrip() {
    let base_tokens = vec![vec![b'a'], vec![b'b'], vec![b'c'], vec![b'd']];
    let merges = vec![(0, 1), (2, 3), (4, 5)];

    let (encoder, token_bytes) = BacktrackingBytePairEncoder::from_merges(&merges, &base_tokens);
    let decoder = VocabDecoder::new(&token_bytes);

    for text in [b"abcd".as_slice(), b"ab", b"cd", b"abcdabcd", b"a", b""] {
        let encoded = encoder.encode(text, 1);
        let decoded = decoder.decode(&encoded);
        assert_eq!(decoded, text);
    }
}

#[test]
fn test_encode_iter_matches_encode() {
    let base_tokens = vec![vec![b'a'], vec![b'b'], vec![b'c'], vec![b'd']];
    let merges = vec![(0, 1), (2, 3), (4, 5)];

    let (encoder, _) = BacktrackingBytePairEncoder::from_merges(&merges, &base_tokens);

    for text in [b"".as_slice(), b"a", b"ab", b"abcd", b"abcdabcdabcdabcdabcd"] {
        let encoded = encoder.encode(text, 1);
        let mut iter = encoder.encode_iter(text);
        let mut iter_encoded = Vec::new();
        while let Some(token) = iter.next() {
            iter_encoded.push(token);
        }
        assert_eq!(encoded, iter_encoded);
    }
}
