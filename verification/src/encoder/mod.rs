//! Token encoders for different tokenization algorithms.
use crate::encoder::backtracking::BacktrackingBytePairEncoder;
use crate::encoder::cache::PretokenCache;
use crate::encoder::stream::EncodeIter;
use crate::types::{Split, TokenId};
use vstd::prelude::*;

pub mod backtracking;
pub mod cache;
pub mod check;
pub mod merging;
pub mod stream;
pub mod unigram;
pub mod units;
pub mod viterbi;

verus! {

/// Encoder algorithm type for serialization.
#[derive(Clone, Copy, Debug, PartialEq, Eq, Structural)]
pub enum EncoderType {
    /// Backtracking BPE using Aho-Corasick automata.
    Backtracking,
    /// Simple BPE with greedy merging.
    Simple,
    /// WordPiece tokenization (BERT-style).
    WordPiece,
    /// SentencePiece BPE with merge rank checking.
    SentencePiece,
    /// Unigram language model tokenization (SentencePiece).
    Unigram,
}

/// The number that stands for an encoder type.
pub open spec fn encoder_id(t: EncoderType) -> u32 {
    match t {
        EncoderType::Backtracking => 0,
        EncoderType::Simple => 1,
        EncoderType::WordPiece => 2,
        EncoderType::SentencePiece => 3,
        EncoderType::Unigram => 4,
    }
}

impl Default for EncoderType {
    fn default() -> (r: Self)
        ensures
            r == EncoderType::Backtracking,
    {
        EncoderType::Backtracking
    }
}

impl EncoderType {
    /// The number that stands for the type in a file.
    pub fn to_u32(self) -> (v: u32)
        ensures
            v == encoder_id(self),
    {
        match self {
            EncoderType::Backtracking => 0,
            EncoderType::Simple => 1,
            EncoderType::WordPiece => 2,
            EncoderType::SentencePiece => 3,
            EncoderType::Unigram => 4,
        }
    }

    /// Convert from u32 (for deserialization).
    pub fn from_u32(v: u32) -> (r: Option<Self>)
        ensures
            r matches Some(t) ==> encoder_id(t) == v,
            r is None ==> v > 4,
    {
        match v {
            0 => Some(EncoderType::Backtracking),
            1 => Some(EncoderType::Simple),
            2 => Some(EncoderType::WordPiece),
            3 => Some(EncoderType::SentencePiece),
            4 => Some(EncoderType::Unigram),
            _ => None,
        }
    }
}

/// Unified encoder interface.
pub enum Encoder {
    /// Greedy matching with backtracking - fast for tiktoken-style.
    Backtracking(BacktrackingBytePairEncoder),
}

impl Encoder {
    /// What the search for tokens goes by.
    pub open spec fn rules(&self) -> backtracking::Rules {
        match self {
            Encoder::Backtracking(e) => e.rules(),
        }
    }

    /// The tables fit the vocabulary.
    pub open spec fn wf(&self) -> bool {
        match self {
            Encoder::Backtracking(e) => e.wf(),
        }
    }

    /// Short tokens can be looked up.
    pub open spec fn looks_up(&self) -> bool {
        match self {
            Encoder::Backtracking(e) => e.looks_up(),
        }
    }

    /// The number of base tokens.
    pub open spec fn base_tokens(&self) -> usize {
        match self {
            Encoder::Backtracking(e) => e.base_tokens(),
        }
    }

    /// The automaton over the vocabulary.
    pub open spec fn automaton(&self) -> daggrs::DoubleArrayAhoCorasick {
        match self {
            Encoder::Backtracking(e) => e.automaton(),
        }
    }

    /// The table of shorter tokens.
    pub open spec fn prefixes(&self) -> Seq<TokenId> {
        match self {
            Encoder::Backtracking(e) => e.prefixes(),
        }
    }

    /// The kind of the encoder.
    pub open spec fn kind(&self) -> EncoderType {
        match self {
            Encoder::Backtracking(_) => EncoderType::Backtracking,
        }
    }

    /// Get the encoder type.
    pub fn encoder_type(&self) -> (r: EncoderType)
        ensures
            r == self.kind(),
    {
        match self {
            Encoder::Backtracking(_) => EncoderType::Backtracking,
        }
    }

    /// Encode text into tokens; a long one in a chunk for each of `workers`.
    pub fn encode(&self, text: &[u8], workers: usize) -> (r: Vec<TokenId>)
        requires
            self.wf(),
            backtracking::fits(self.rules().vocab, text@, workers as int),
            backtracking::workers_ok(text@, workers as int),
        ensures
            r@ == backtracking::encoding(self.rules(), text@, workers as int),
    {
        match self {
            Encoder::Backtracking(e) => e.encode(text, workers),
        }
    }

    /// Append the encoding of one piece to `out`, by way of the pretoken
    /// cache if there is one.
    pub fn encode_into(
        &self,
        text: &[u8],
        cache: Option<&mut PretokenCache>,
        workers: usize,
        out: &mut Vec<TokenId>,
    )
        requires
            self.wf(),
            backtracking::fits(self.rules().vocab, text@, workers as int),
            backtracking::workers_ok(text@, workers as int),
            cache matches Some(c) ==> backtracking::cache_sound(self.rules(), *c),
        ensures
            final(out)@ == old(out)@ + backtracking::encoding(
                self.rules(),
                text@,
                workers as int,
            ),
            cache matches Some(c) ==> backtracking::cache_sound(self.rules(), *final(c)),
    {
        match self {
            Encoder::Backtracking(e) => e.encode_into(text, cache, workers, out),
        }
    }

    /// Get the vocabulary size.
    pub fn vocab_size(&self) -> (n: usize)
        requires
            self.wf(),
        ensures
            n == self.rules().vocab.len(),
    {
        match self {
            Encoder::Backtracking(e) => e.vocab_size(),
        }
    }

    /// Get the number of base tokens.
    pub fn num_base_tokens(&self) -> (n: usize)
        ensures
            n == self.base_tokens(),
    {
        match self {
            Encoder::Backtracking(e) => e.num_base_tokens(),
        }
    }

    /// Get a reference to the split table.
    pub fn split_table(&self) -> (r: Option<&[Split]>)
        ensures
            r is Some,
            r->0@ == self.rules().splits,
    {
        match self {
            Encoder::Backtracking(e) => Some(e.split_table()),
        }
    }

    /// Get the underlying backtracking encoder if this is one.
    pub fn as_backtracking(&self) -> (r: Option<&BacktrackingBytePairEncoder>)
        ensures
            r is Some,
            *self == Encoder::Backtracking(*r->0),
    {
        match self {
            Encoder::Backtracking(e) => Some(e),
        }
    }

    /// Check if two tokens can appear adjacent in a valid encoding.
    pub fn is_valid_pair(&self, token1: TokenId, token2: TokenId) -> (ok: bool)
        requires
            self.wf(),
            token1 < self.rules().vocab.len(),
            token2 < self.rules().vocab.len(),
        ensures
            ok == backtracking::pair_ok(
                self.rules(),
                token1 as int,
                token2 as int,
                u32::MAX as int,
            ),
    {
        match self {
            Encoder::Backtracking(e) => e.is_valid_pair(token1, token2),
        }
    }

    /// An encoder in order can look up short tokens.
    pub proof fn lemma_looks_up(&self)
        requires
            self.wf(),
        ensures
            self.looks_up(),
    {
        match self {
            Encoder::Backtracking(e) => e.lemma_parts_fit(),
        }
    }

    /// The token that a short text is as a whole, if it is one.
    pub fn whole_token(&self, text: &[u8]) -> (r: Option<TokenId>)
        requires
            text@.len() > 0,
        ensures
            self.looks_up() ==> (r is Some <==> text@.len() <= backtracking::MAX_CACHED_TOKEN_LEN
                && backtracking::is_token(self.rules().vocab, text@)),
            self.looks_up() ==> (r matches Some(t) ==> backtracking::bpe(self.rules(), text@)
                == seq![t]),
            self.wf() ==> self.looks_up(),
    {
        match self {
            Encoder::Backtracking(e) => e.whole_token(text),
        }
    }

    /// Can a text be searched for tokens?
    pub fn is_searchable(&self, text: &[u8]) -> (r: bool)
        requires
            self.wf(),
        ensures
            r == backtracking::searchable(self.rules().vocab, text@),
    {
        match self {
            Encoder::Backtracking(e) => e.is_searchable(text),
        }
    }

    /// Can a text be encoded?
    pub fn fits(&self, text: &[u8], workers: usize) -> (r: bool)
        requires
            self.wf(),
            backtracking::workers_ok(text@, workers as int),
        ensures
            r == backtracking::fits(self.rules().vocab, text@, workers as int),
    {
        match self {
            Encoder::Backtracking(e) => e.fits(text, workers),
        }
    }
}

/// Iterator over the tokens of an encoder.
pub enum EncoderIter<'a> {
    Backtracking(EncodeIter<'a>),
}

impl<'a> EncoderIter<'a> {
    /// What the search goes by.
    pub open spec fn rules(&self) -> backtracking::Rules {
        match self {
            EncoderIter::Backtracking(it) => it.rules(),
        }
    }

    /// The text.
    pub open spec fn text(&self) -> Seq<u8> {
        match self {
            EncoderIter::Backtracking(it) => it.text(),
        }
    }

    /// The stream of tokens.
    pub open spec fn state(&self) -> stream::Stream {
        match self {
            EncoderIter::Backtracking(it) => it.state(),
        }
    }

    /// The stream fits the text.
    pub open spec fn wf(&self) -> bool {
        match self {
            EncoderIter::Backtracking(it) => it.wf(),
        }
    }

    /// The next token.
    pub fn next(&mut self) -> (r: Option<TokenId>)
        requires
            old(self).wf(),
        ensures
            final(self).wf(),
            final(self).rules() == old(self).rules(),
            final(self).text() == old(self).text(),
            r == stream::front(
                stream::filled(old(self).rules(), old(self).text(), old(self).state()),
            ),
            final(self).state() == stream::behind(
                stream::filled(old(self).rules(), old(self).text(), old(self).state()),
            ),
    {
        match self {
            EncoderIter::Backtracking(it) => it.next(),
        }
    }
}

impl BacktrackingBytePairEncoder {
    /// Streaming iterator over the tokens of a text.
    pub fn encode_iter<'a>(&'a self, text: &'a [u8]) -> (r: EncodeIter<'a>)
        requires
            self.wf(),
            backtracking::searchable(self.vocab(), text@),
        ensures
            r.wf(),
            r.rules() == self.rules(),
            r.text() == text@,
            r.state() == stream::start(self.rules(), text@),
    {
        EncodeIter::new(self, text)
    }
}

impl Encoder {
    /// Streaming iterator over the tokens of a text.
    pub fn encode_iter<'a>(&'a self, text: &'a [u8]) -> (r: EncoderIter<'a>)
        requires
            self.wf(),
            backtracking::searchable(self.rules().vocab, text@),
        ensures
            r.wf(),
            r.rules() == self.rules(),
            r.text() == text@,
            r.state() == stream::start(self.rules(), text@),
    {
        match self {
            Encoder::Backtracking(e) => EncoderIter::Backtracking(e.encode_iter(text)),
        }
    }
}

} // verus!
