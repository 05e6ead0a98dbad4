//! Texts that a small vocabulary can and cannot encode, and lazy counts.
use tokie::decoder::Decoder;
use tokie::encoder::backtracking::BacktrackingBytePairEncoder;
use tokie::encoder::Encoder;
use tokie::normalizer::Normalizer;
use tokie::postprocessor::PostProcessor;
use tokie::pretok::PretokType;
use tokie::tokenizer::stream::CountOrder;
use tokie::tokenizer::Tokenizer;

fn make(merges: &[(u32, u32)], base: &[Vec<u8>], pretok: PretokType, normalizer: Normalizer) -> Tokenizer {
    let (encoder, token_bytes) = BacktrackingBytePairEncoder::from_merges(merges, base);
    let decoder = Decoder::new(&token_bytes);
    Tokenizer::new(Encoder::Backtracking(encoder), decoder, pretok, normalizer, PostProcessor::Absent)
}

fn letters(pretok: PretokType, normalizer: Normalizer) -> Tokenizer {
    let base = vec![b"a".to_vec(), b"b".to_vec(), b"c".to_vec()];
    make(&[(0, 1)], &base, pretok, normalizer)
}

fn bytes_with(merge: (u32, u32), pretok: PretokType) -> Tokenizer {
    let base: Vec<Vec<u8>> = (0u8..=255).map(|b| vec![b]).collect();
    make(&[merge], &base, pretok, Normalizer::Absent)
}

#[test]
fn token_count_goes_by_pieces() {
    let t = bytes_with((97, 32), PretokType::Gpt2);
    assert_eq!(t.count_tokens("a b"), 3);
    assert_eq!(t.token_count("a b").compare(2), Some(CountOrder::Greater));
    assert_eq!(t.token_count("a b").compare(3), Some(CountOrder::Equal));
    assert_eq!(t.token_count("a b").compare(4), Some(CountOrder::Less));
    let whole = bytes_with((97, 32), PretokType::Absent);
    assert_eq!(whole.token_count("a b").compare(2), Some(CountOrder::Equal));
}

#[test]
fn token_count_is_compared_once() {
    let t = bytes_with((97, 98), PretokType::Gpt2);
    let mut count = t.token_count("ab cd");
    assert_eq!(count.compare(usize::MAX), Some(CountOrder::Less));
    assert_eq!(count.compare(3), None);
    assert_eq!(t.token_count("").compare(0), Some(CountOrder::Equal));
}

#[test]
fn token_count_of_a_long_text() {
    let t = bytes_with((97, 98), PretokType::Gpt2);
    let text = "ab cd ".repeat(20_000);
    let n = t.count_tokens(&text);
    assert_eq!(t.token_count(&text).compare(n), Some(CountOrder::Equal));
    assert_eq!(t.token_count(&text).compare(n - 1), Some(CountOrder::Greater));
}

#[test]
fn three_letters_encode_their_words() {
    let t = letters(PretokType::Absent, Normalizer::Absent);
    assert!(t.can_encode("abc", true));
    assert_eq!(t.encode("abc", false).ids, vec![3, 2]);
    assert_eq!(t.encode_ids("cab", false), vec![2, 3]);
    assert_eq!(t.decode(&[3, 2]).unwrap(), "abc");
    assert_eq!(t.count_tokens("abcab"), 3);
    assert_eq!(t.encode_batch(&["a", "bc"], false)[1].ids, vec![1, 2]);
}

#[test]
fn a_byte_that_is_no_token_cannot_be_encoded() {
    let t = letters(PretokType::Absent, Normalizer::Absent);
    assert!(!t.can_encode("abd", true));
    assert_eq!(t.try_encode("abd", false), None);
    assert_eq!(t.try_encode_ids("abd", false), None);
    assert_eq!(t.try_encode_ids("abc", false), Some(vec![3, 2]));
    assert_eq!(t.try_encode_with_offsets("d", false), None);
    assert_eq!(t.try_encode_with_offsets("ab", false).unwrap().offsets, vec![(0, 2)]);
    assert_eq!(t.try_encode_pair("a", "d", false), None);
    assert_eq!(t.try_encode_pair("a", "b", false).unwrap().ids, vec![0, 1]);
    assert_eq!(t.try_count_tokens("d"), None);
    assert_eq!(t.try_count_tokens("abc"), Some(2));
    assert!(t.try_token_count("d").is_none());
    assert_eq!(t.try_token_count("abc").unwrap().compare(2), Some(CountOrder::Equal));
    assert!(t.try_encode_iter("d").is_none());
    assert_eq!(t.try_encode_iter("ab").unwrap().next(), Some(3));
}

#[test]
fn batches_are_encoded_whole_or_not_at_all() {
    let t = letters(PretokType::Absent, Normalizer::Absent);
    assert_eq!(t.try_encode_batch(&["ab", "x"], false), None);
    assert_eq!(t.try_encode_batch(&["ab", "c"], false).unwrap()[0].ids, vec![3]);
    assert_eq!(t.try_encode_batch_flat(&["ab", "x"], false), None);
    assert_eq!(t.try_encode_batch_flat(&["ab", "ca"], false), Some((vec![3, 2, 0], vec![1, 2])));
    assert_eq!(t.try_count_tokens_batch(&["x"]), None);
    assert_eq!(t.try_count_tokens_batch(&["ab", "ca"]), Some(vec![1, 2]));
    let buffers = vec![b"ab\nca".to_vec()];
    assert_eq!(t.try_encode_buffers_flat(&buffers, b"\n", false), Some((vec![3, 2, 0], vec![0, 1, 3])));
    assert_eq!(t.try_count_tokens_buffers(&buffers, b"\n"), Some(Some(3)));
    assert_eq!(t.try_encode_buffers_flat(&buffers, b";", false), None);
    assert_eq!(t.try_count_tokens_buffers(&[b"\xff".to_vec()], b"\n"), None);
}

#[test]
fn what_a_pretokenizer_drops_needs_no_token() {
    let t = letters(PretokType::Bert, Normalizer::Absent);
    assert_eq!(t.try_encode_ids("ab c", false), Some(vec![3, 2]));
    let kept = letters(PretokType::Gpt2, Normalizer::Absent);
    assert_eq!(kept.try_encode_ids("ab c", false), None);
}

#[test]
fn what_a_normalizer_changes_is_asked_of_its_form() {
    let t = letters(PretokType::Absent, Normalizer::BertUncased);
    assert_eq!(t.try_encode_ids("AB", false), Some(vec![3]));
    let cased = letters(PretokType::Absent, Normalizer::Absent);
    assert_eq!(cased.try_encode_ids("AB", false), None);
}

#[test]
fn tokens_longer_than_a_byte_need_no_bytes() {
    let base = vec!["é".as_bytes().to_vec(), b"x".to_vec()];
    let t = make(&[(0, 1)], &base, PretokType::Absent, Normalizer::Absent);
    assert_eq!(t.try_encode_ids("é", false), Some(vec![0]));
    assert_eq!(t.try_encode_ids("éx", false), Some(vec![2]));
    assert_eq!(t.try_encode_ids("xéxé", false), Some(vec![1, 2, 0]));
    assert_eq!(t.try_encode_ids("éy", false), None);
    assert_eq!(t.try_encode_ids("è", false), None);
    assert_eq!(t.decode(&[1, 2, 0]).unwrap(), "xéxé");
    let mut it = t.try_encode_iter("xéx").unwrap();
    assert_eq!((it.next(), it.next(), it.next()), (Some(1), Some(2), None));
    assert!(t.try_encode_iter("yé").is_none());
}

#[test]
fn a_short_text_that_is_a_token_is_encoded_as_it() {
    let base = vec![b"abc".to_vec(), b"b".to_vec()];
    let t = make(&[], &base, PretokType::Absent, Normalizer::Absent);
    assert_eq!(t.try_encode_ids("abc", false), Some(vec![0]));
    assert_eq!(t.try_encode_ids("bb", false), Some(vec![1, 1]));
    assert_eq!(t.try_encode_ids("abcb", false), None);
}

#[test]
fn chunks_of_a_long_text_are_asked_one_by_one() {
    let base = vec![b"a".to_vec(), b" ".to_vec()];
    let mut t = make(&[(1, 0)], &base, PretokType::Absent, Normalizer::Absent);
    t.set_workers(3);
    let text = "aa ".repeat(5000);
    let ids = t.try_encode_ids(&text, false).unwrap();
    assert_eq!(t.decode(&ids).unwrap(), text);
    assert_eq!(t.try_encode_ids(&(text + "b"), false), None);
}

#[test]
fn bytes_are_streamed() {
    let t = letters(PretokType::Absent, Normalizer::Absent);
    let mut it = t.encode_bytes_iter(b"abcab");
    let mut ids = Vec::new();
    while let Some(id) = it.next() {
        ids.push(id);
    }
    assert_eq!(ids, vec![3, 2, 3]);
    assert_eq!(ids, t.encode_bytes(b"abcab"));
}
