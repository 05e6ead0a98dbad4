//! The settings of encoders that do not merge pairs.
use crate::bytes;
use crate::bytes::{push_bytes, push_u16, push_u32, read_u16, read_u32, to_vec};
use crate::serde::codec;
use crate::serde::codec::{push_words, read_words};
use crate::serde::SerdeError;
use crate::types::TokenId;
use vstd::prelude::*;
use vstd::slice::*;

verus! {

// ---- WordPiece ----

/// How many characters a word may have where a file does not say.
pub const DEFAULT_MAX_INPUT_CHARS: u32 = 100;

/// The settings of a WordPiece encoder.
#[derive(Debug, PartialEq, Eq)]
pub struct WordPieceConfig {
    pub unk_token: TokenId,
    pub continuation_prefix: Vec<u8>,
    pub max_input_chars_per_word: u32,
}

/// The bytes of the settings.
pub open spec fn wordpiece_bytes(unk: TokenId, prefix: Seq<u8>, max_chars: u32) -> Seq<u8> {
    bytes::u32_bytes(unk) + bytes::u32_bytes(prefix.len() as u32) + prefix + bytes::u32_bytes(
        max_chars,
    )
}

/// Why bytes are no settings.
pub open spec fn wordpiece_error(d: Seq<u8>) -> Option<SerdeError> {
    if d.len() < 8 {
        Some(SerdeError::InvalidData("wordpiece config too small"))
    } else if d.len() < 8 + bytes::u32_at(d, 4) {
        Some(SerdeError::InvalidData("wordpiece prefix truncated"))
    } else {
        None
    }
}

/// Serialize WordPiece encoder config.
///
/// Format: unk_token (u32) + prefix_len (u32) + prefix bytes + max_input_chars_per_word (u32)
pub fn serialize_wordpiece_config(c: &WordPieceConfig) -> (r: Vec<u8>)
    requires
        c.continuation_prefix@.len() <= u32::MAX,
    ensures
        r@ == wordpiece_bytes(c.unk_token, c.continuation_prefix@, c.max_input_chars_per_word),
{
    let mut out: Vec<u8> = Vec::new();
    push_u32(&mut out, c.unk_token);
    push_u32(&mut out, c.continuation_prefix.len() as u32);
    push_bytes(&mut out, c.continuation_prefix.as_slice());
    push_u32(&mut out, c.max_input_chars_per_word);
    assert(out@ =~= wordpiece_bytes(
        c.unk_token,
        c.continuation_prefix@,
        c.max_input_chars_per_word,
    ));
    out
}

/// Deserialize WordPiece encoder config. Older files do not say how many
/// characters a word may have.
pub fn deserialize_wordpiece_config(data: &[u8]) -> (r: Result<WordPieceConfig, SerdeError>)
    ensures
        match r {
            Ok(c) => {
                let n = bytes::u32_at(data@, 4) as int;
                &&& wordpiece_error(data@) is None
                &&& c.unk_token == bytes::u32_at(data@, 0)
                &&& c.continuation_prefix@ == data@.subrange(8, 8 + n)
                &&& c.max_input_chars_per_word == if data@.len() >= 12 + n {
                    bytes::u32_at(data@, 8 + n)
                } else {
                    DEFAULT_MAX_INPUT_CHARS
                }
            },
            Err(e) => wordpiece_error(data@) == Some(e),
        },
{
    let len: usize = data.len();
    if len < 8 {
        return Err(SerdeError::InvalidData("wordpiece config too small"));
    }
    let unk_token = read_u32(data, 0);
    let n: usize = read_u32(data, 4) as usize;
    if len - 8 < n {
        return Err(SerdeError::InvalidData("wordpiece prefix truncated"));
    }
    let continuation_prefix = to_vec(slice_subrange(data, 8, 8 + n));
    let max_input_chars_per_word: u32 = if len - 8 - n >= 4 {
        read_u32(data, 8 + n)
    } else {
        DEFAULT_MAX_INPUT_CHARS
    };
    Ok(WordPieceConfig { unk_token, continuation_prefix, max_input_chars_per_word })
}

/// Settings that were written are read.
pub proof fn law_wordpiece_is_read_back(unk: TokenId, prefix: Seq<u8>, max_chars: u32)
    requires
        prefix.len() <= u32::MAX,
    ensures
        ({
            let d = wordpiece_bytes(unk, prefix, max_chars);
            let n = prefix.len() as int;
            &&& wordpiece_error(d) is None
            &&& bytes::u32_at(d, 0) == unk
            &&& bytes::u32_at(d, 4) == n
            &&& d.subrange(8, 8 + n) == prefix
            &&& d.len() >= 12 + n
            &&& bytes::u32_at(d, 8 + n) == max_chars
        }),
{
    let d = wordpiece_bytes(unk, prefix, max_chars);
    let (a, b, c) = (
        bytes::u32_bytes(unk),
        bytes::u32_bytes(prefix.len() as u32),
        bytes::u32_bytes(max_chars),
    );
    let none = Seq::<u8>::empty();
    bytes::lemma_u32_bytes(unk);
    bytes::lemma_u32_bytes(prefix.len() as u32);
    bytes::lemma_u32_bytes(max_chars);
    bytes::lemma_u32_at(none, unk, b + prefix + c);
    assert(d =~= none + a + (b + prefix + c));
    bytes::lemma_u32_at(a, prefix.len() as u32, prefix + c);
    assert(d =~= a + b + (prefix + c));
    bytes::lemma_u32_at(a + b + prefix, max_chars, none);
    assert(d =~= (a + b + prefix) + c + none);
    assert(d.subrange(8, 8 + prefix.len() as int) =~= prefix);
}

// ---- Unigram ----

/// The settings of a Unigram encoder. The scores are kept as the words that
/// hold them: two for each from version 12 on, one before that.
#[derive(Debug, PartialEq, Eq)]
pub struct UnigramConfig {
    pub unk_token: TokenId,
    /// The fallback token of each byte.
    pub byte_tokens: Vec<TokenId>,
    pub score_words: Vec<u32>,
    pub token_lengths: Vec<u16>,
}

/// How many words hold a score.
pub open spec fn words_per_score(version: u32) -> int {
    if version >= 12 {
        2
    } else {
        1
    }
}

/// The bytes of short numbers, one behind the other.
pub open spec fn halves_bytes(v: Seq<u16>) -> Seq<u8>
    decreases v.len(),
{
    if v.len() == 0 {
        seq![]
    } else {
        halves_bytes(v.drop_last()) + bytes::u16_bytes(v.last())
    }
}

/// The `n` short numbers from `p` on.
pub open spec fn halves_at(d: Seq<u8>, p: int, n: int) -> Seq<u16> {
    Seq::new(n as nat, |i: int| bytes::u16_at(d, p + 2 * i))
}

proof fn lemma_halves_len(v: Seq<u16>)
    ensures
        halves_bytes(v).len() == 2 * v.len(),
    decreases v.len(),
{
    if v.len() > 0 {
        lemma_halves_len(v.drop_last());
        bytes::lemma_u16_bytes(v.last());
    }
}

proof fn lemma_halves_are_read_back(before: Seq<u8>, v: Seq<u16>, behind: Seq<u8>)
    ensures
        halves_at(before + halves_bytes(v) + behind, before.len() as int, v.len() as int) == v,
    decreases v.len(),
{
    let d = before + halves_bytes(v) + behind;
    let p = before.len() as int;
    if v.len() > 0 {
        let front = v.drop_last();
        let half = bytes::u16_bytes(v.last());
        lemma_halves_len(front);
        bytes::lemma_u16_bytes(v.last());
        assert(d =~= before + halves_bytes(front) + (half + behind));
        lemma_halves_are_read_back(before, front, half + behind);
        let at = p + 2 * front.len();
        assert(d.subrange(at, at + 2) =~= half);
        assert forall|i: int| 0 <= i < v.len() implies #[trigger] halves_at(
            d,
            p,
            v.len() as int,
        )[i] == v[i] by {
            if i < front.len() {
                assert(halves_at(d, p, front.len() as int)[i] == front[i]);
            }
        }
    }
    assert(halves_at(d, p, v.len() as int) =~= v);
}

/// The bytes of the settings.
pub open spec fn unigram_bytes(
    unk: TokenId,
    byte_tokens: Seq<TokenId>,
    score_words: Seq<u32>,
    lengths: Seq<u16>,
) -> Seq<u8> {
    codec::words_bytes(seq![lengths.len() as u32, unk]) + codec::words_bytes(byte_tokens)
        + codec::words_bytes(score_words) + halves_bytes(lengths)
}

/// How many bytes settings of `n` tokens take.
pub open spec fn unigram_len(n: int, version: u32) -> int {
    1032 + 4 * (words_per_score(version) * n) + 2 * n
}

/// Why bytes are no settings.
pub open spec fn unigram_error(d: Seq<u8>, version: u32) -> Option<SerdeError> {
    if d.len() < 1032 {
        Some(SerdeError::InvalidData("unigram config too small"))
    } else if d.len() < unigram_len(bytes::u32_at(d, 0) as int, version) {
        Some(SerdeError::InvalidData("unigram config truncated"))
    } else {
        None
    }
}

/// Serialize Unigram encoder config.
///
/// Format:
/// - vocab_size (u32)
/// - unk_token (u32)
/// - byte_tokens (256 x u32 = 1024 bytes)
/// - scores (vocab_size x f64)
/// - token_lengths (vocab_size x u16)
pub fn serialize_unigram_config(c: &UnigramConfig) -> (r: Vec<u8>)
    requires
        c.token_lengths@.len() <= u32::MAX,
    ensures
        r@ == unigram_bytes(c.unk_token, c.byte_tokens@, c.score_words@, c.token_lengths@),
{
    let mut head: Vec<u32> = Vec::new();
    head.push(c.token_lengths.len() as u32);
    head.push(c.unk_token);
    assert(head@ =~= seq![c.token_lengths@.len() as u32, c.unk_token]);
    let mut out: Vec<u8> = Vec::new();
    push_words(&mut out, head.as_slice());
    push_words(&mut out, c.byte_tokens.as_slice());
    push_words(&mut out, c.score_words.as_slice());
    let ghost before = out@;
    let mut i: usize = 0;
    assert(c.token_lengths@.subrange(0, 0) =~= seq![]);
    assert(out@ =~= before + halves_bytes(c.token_lengths@.subrange(0, 0)));
    while i < c.token_lengths.len()
        invariant
            i <= c.token_lengths.len(),
            out@ == before + halves_bytes(c.token_lengths@.subrange(0, i as int)),
        decreases c.token_lengths.len() - i,
    {
        proof {
            let s = c.token_lengths@.subrange(0, i + 1);
            assert(s.drop_last() =~= c.token_lengths@.subrange(0, i as int));
            assert(s.last() == c.token_lengths@[i as int]);
        }
        push_u16(&mut out, c.token_lengths[i]);
        assert(out@ =~= before + halves_bytes(c.token_lengths@.subrange(0, i + 1)));
        i = i + 1;
    }
    assert(c.token_lengths@.subrange(0, c.token_lengths@.len() as int) =~= c.token_lengths@);
    assert(out@ =~= unigram_bytes(
        c.unk_token,
        c.byte_tokens@,
        c.score_words@,
        c.token_lengths@,
    ));
    out
}

/// Deserialize Unigram encoder config.
pub fn deserialize_unigram_config(data: &[u8], version: u32) -> (r: Result<
    UnigramConfig,
    SerdeError,
>)
    ensures
        match r {
            Ok(c) => {
                let n = bytes::u32_at(data@, 0) as int;
                let w = words_per_score(version) * n;
                &&& unigram_error(data@, version) is None
                &&& c.unk_token == bytes::u32_at(data@, 4)
                &&& c.byte_tokens@ == codec::words_at(data@, 8, 256)
                &&& c.score_words@ == codec::words_at(data@, 1032, w)
                &&& c.token_lengths@ == halves_at(data@, 1032 + 4 * w, n)
            },
            Err(e) => unigram_error(data@, version) == Some(e),
        },
{
    let len: usize = data.len();
    if len < 1032 {
        return Err(SerdeError::InvalidData("unigram config too small"));
    }
    let vocab_size: u32 = read_u32(data, 0);
    let unk_token = read_u32(data, 4);
    let words: u64 = if version >= 12 {
        2 * vocab_size as u64
    } else {
        vocab_size as u64
    };
    let expected: u64 = 1032 + 4 * words + 2 * vocab_size as u64;
    if (len as u64) < expected {
        return Err(SerdeError::InvalidData("unigram config truncated"));
    }
    let n: usize = vocab_size as usize;
    let w: usize = words as usize;
    let byte_tokens = read_words(data, 8, 256);
    let score_words = read_words(data, 1032, w);
    let mut token_lengths: Vec<u16> = Vec::new();
    let mut i: usize = 0;
    while i < n
        invariant
            i <= n,
            len == data@.len(),
            1032 + 4 * w + 2 * n <= len,
            token_lengths@ == halves_at(data@, 1032 + 4 * w, i as int),
        decreases n - i,
    {
        token_lengths.push(read_u16(data, 1032 + 4 * w + 2 * i));
        assert(token_lengths@ =~= halves_at(data@, 1032 + 4 * w, i + 1));
        i = i + 1;
    }
    Ok(UnigramConfig { unk_token, byte_tokens, score_words, token_lengths })
}

/// The words that hold the scores, where each takes two: the low half of a
/// score's bits, then the high half.
pub open spec fn score_bits(words: Seq<u32>) -> Seq<u64> {
    Seq::new(
        words.len() / 2,
        |i: int| (words[2 * i] + 0x1_0000_0000 * words[2 * i + 1]) as u64,
    )
}

/// The bits of the scores, where each takes two words.
pub fn join_score_words(words: &[u32]) -> (r: Vec<u64>)
    ensures
        r@ == score_bits(words@),
{
    let len: usize = words.len();
    let n: usize = len / 2;
    let mut out: Vec<u64> = Vec::new();
    let mut i: usize = 0;
    while i < n
        invariant
            len == words@.len(),
            n == len / 2,
            i <= n,
            out@.len() == i,
            forall|k: int| 0 <= k < i ==> #[trigger] out@[k] == score_bits(words@)[k],
        decreases n - i,
    {
        let low: u64 = words[2 * i] as u64;
        let high: u64 = words[2 * i + 1] as u64;
        out.push(low + 0x1_0000_0000 * high);
        i = i + 1;
    }
    assert(out@ =~= score_bits(words@));
    out
}

/// Settings that were written are read.
pub proof fn law_unigram_is_read_back(
    unk: TokenId,
    byte_tokens: Seq<TokenId>,
    score_words: Seq<u32>,
    lengths: Seq<u16>,
    version: u32,
)
    requires
        lengths.len() <= u32::MAX,
        byte_tokens.len() == 256,
        score_words.len() == words_per_score(version) * lengths.len(),
    ensures
        ({
            let d = unigram_bytes(unk, byte_tokens, score_words, lengths);
            let n = lengths.len() as int;
            &&& unigram_error(d, version) is None
            &&& bytes::u32_at(d, 0) == n
            &&& bytes::u32_at(d, 4) == unk
            &&& codec::words_at(d, 8, 256) == byte_tokens
            &&& codec::words_at(d, 1032, score_words.len() as int) == score_words
            &&& halves_at(d, 1032 + 4 * (score_words.len() as int), n) == lengths
        }),
{
    let d = unigram_bytes(unk, byte_tokens, score_words, lengths);
    let head = seq![lengths.len() as u32, unk];
    let h = codec::words_bytes(head);
    let b = codec::words_bytes(byte_tokens);
    let s = codec::words_bytes(score_words);
    let l = halves_bytes(lengths);
    let none = Seq::<u8>::empty();
    codec::lemma_words_len(head);
    codec::lemma_words_len(byte_tokens);
    codec::lemma_words_len(score_words);
    lemma_halves_len(lengths);
    assert(d =~= none + h + (b + s + l));
    codec::law_words_are_read_back(none, head, b + s + l);
    assert(codec::words_at(d, 0, 2)[0] == head[0]);
    assert(codec::words_at(d, 0, 2)[1] == head[1]);
    assert(d =~= h + b + (s + l));
    codec::law_words_are_read_back(h, byte_tokens, s + l);
    assert(d =~= (h + b) + s + l);
    codec::law_words_are_read_back(h + b, score_words, l);
    assert(d =~= (h + b + s) + l + none);
    lemma_halves_are_read_back(h + b + s, lengths, none);
}

} // verus!
