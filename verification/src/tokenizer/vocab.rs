//! Vocabulary access and decoding.
use crate::decoder;
use crate::encoder::backtracking;
use crate::text;
use crate::text::from_utf8_lossy;
use crate::tokenizer::Tokenizer;
use crate::types::TokenId;
use vstd::prelude::*;
use vstd::utf8::*;

verus! {

/// The first `n` entries of a vocabulary hold a token with this text.
pub open spec fn named(vocab: Seq<Seq<u8>>, n: int, token: Seq<char>) -> bool {
    exists|i: int| 0 <= i < n && #[trigger] text::lossy_text(vocab[i]) == token
}

/// `id` is the last of the first `n` entries with this text.
pub open spec fn last_named(vocab: Seq<Seq<u8>>, n: int, token: Seq<char>, id: int) -> bool {
    &&& 0 <= id < n
    &&& text::lossy_text(vocab[id]) == token
    &&& forall|i: int| id < i < n ==> #[trigger] text::lossy_text(vocab[i]) != token
}

/// The entries of `v` give each text its last id among the first `n` entries
/// of the vocabulary, and no text twice.
pub open spec fn names_of(vocab: Seq<Seq<u8>>, n: int, v: Seq<(String, TokenId)>) -> bool {
    &&& forall|k: int|
        0 <= k < v.len() ==> last_named(vocab, n, (#[trigger] v[k]).0@, v[k].1 as int)
    &&& forall|token: Seq<char>| #[trigger]
        named(vocab, n, token) ==> exists|k: int| 0 <= k < v.len() && (#[trigger] v[k]).0@ == token
    &&& forall|j: int, k: int|
        0 <= j < k < v.len() ==> (#[trigger] v[j]).0@ != (#[trigger] v[k]).0@
}

/// Where a text stands among entries.
fn find_name(v: &Vec<(String, TokenId)>, s: &String) -> (r: Option<usize>)
    ensures
        match r {
            Some(k) => k < v@.len() && v@[k as int].0@ == s@,
            None => forall|k: int| 0 <= k < v@.len() ==> (#[trigger] v@[k]).0@ != s@,
        },
{
    let mut k: usize = 0;
    while k < v.len()
        invariant
            k <= v.len(),
            forall|j: int| 0 <= j < k ==> (#[trigger] v@[j]).0@ != s@,
        decreases v.len() - k,
    {
        if v[k].0 == *s {
            return Some(k);
        }
        k = k + 1;
    }
    None
}

impl Tokenizer {
    /// The decoder has the vocabulary of the encoder. That is all that tokens
    /// need to be turned into text.
    pub open spec fn decodes(&self) -> bool {
        &&& self.decoder_part().wf()
        &&& self.decoder_part().tokens() == self.pipeline().rules.vocab
        &&& self.pipeline().rules.vocab.len() <= u32::MAX
    }

    /// A tokenizer whose parts fit each other decodes.
    pub proof fn lemma_decodes(&self)
        requires
            self.wf() || self.decodes(),
        ensures
            self.decodes(),
    {
        if self.wf() {
            self.lemma_vocab_small();
        }
    }

    /// The text of a token. What is not valid UTF-8 in it becomes U+FFFD.
    pub fn id_to_token(&self, id: TokenId) -> (r: Option<String>)
        requires
            self.wf() || self.decodes(),
        ensures
            match r {
                Some(s) => id < self.pipeline().rules.vocab.len() && s@ == text::lossy_text(
                    self.pipeline().rules.vocab[id as int],
                ),
                None => id >= self.pipeline().rules.vocab.len(),
            },
            id < self.pipeline().rules.vocab.len() && valid_utf8(
                self.pipeline().rules.vocab[id as int],
            ) ==> text::utf8(r->0@) == self.pipeline().rules.vocab[id as int],
    {
        proof {
            self.lemma_decodes();
        }
        if id as usize >= self.vocab_size() {
            return None;
        }
        Some(from_utf8_lossy(self.decoder.token_to_bytes(id)))
    }

    /// The id of the token with this text: the last, where several have it.
    pub fn token_to_id(&self, token: &str) -> (r: Option<TokenId>)
        requires
            self.wf() || self.decodes(),
        ensures
            match r {
                Some(id) => last_named(
                    self.pipeline().rules.vocab,
                    self.pipeline().rules.vocab.len() as int,
                    token@,
                    id as int,
                ),
                None => !named(
                    self.pipeline().rules.vocab,
                    self.pipeline().rules.vocab.len() as int,
                    token@,
                ),
            },
    {
        let ghost vocab = self.pipeline().rules.vocab;
        let want = token.to_string();
        proof {
            self.lemma_decodes();
        }
        let mut id: usize = self.vocab_size();
        while id > 0
            invariant
                self.decodes(),
                vocab == self.pipeline().rules.vocab,
                vocab.len() <= u32::MAX,
                want@ == token@,
                id <= vocab.len(),
                forall|i: int|
                    id <= i < vocab.len() ==> #[trigger] text::lossy_text(vocab[i]) != token@,
            decreases id,
        {
            id = id - 1;
            let s = from_utf8_lossy(self.decoder.token_to_bytes(id as TokenId));
            if s == want {
                return Some(id as TokenId);
            }
        }
        None
    }

    /// The full vocabulary: each token text with its id.
    pub fn get_vocab(&self) -> (r: Vec<(String, TokenId)>)
        requires
            self.wf() || self.decodes(),
        ensures
            names_of(
                self.pipeline().rules.vocab,
                self.pipeline().rules.vocab.len() as int,
                r@,
            ),
    {
        let ghost vocab = self.pipeline().rules.vocab;
        let n: usize = self.vocab_size();
        proof {
            self.lemma_decodes();
        }
        let mut out: Vec<(String, TokenId)> = Vec::new();
        let mut id: usize = 0;
        while id < n
            invariant
                self.decodes(),
                vocab == self.pipeline().rules.vocab,
                n == vocab.len() <= u32::MAX,
                id <= n,
                names_of(vocab, id as int, out@),
            decreases n - id,
        {
            let s = from_utf8_lossy(self.decoder.token_to_bytes(id as TokenId));
            let ghost before = out@;
            let ghost t = s@;
            match find_name(&out, &s) {
                Some(k) => {
                    out.set(k, (s, id as TokenId));
                    assert forall|token: Seq<char>| #[trigger]
                        named(vocab, id + 1, token) implies exists|j: int|
                        0 <= j < out@.len() && (#[trigger] out@[j]).0@ == token by {
                        if token == t {
                            assert(out@[k as int].0@ == token);
                        } else {
                            assert(named(vocab, id as int, token));
                            let j = choose|j: int|
                                0 <= j < before.len() && (#[trigger] before[j]).0@ == token;
                            assert(out@[j].0@ == token);
                        }
                    }
                },
                None => {
                    out.push((s, id as TokenId));
                    assert forall|token: Seq<char>| #[trigger]
                        named(vocab, id + 1, token) implies exists|j: int|
                        0 <= j < out@.len() && (#[trigger] out@[j]).0@ == token by {
                        if token == t {
                            assert(out@[before.len() as int].0@ == token);
                        } else {
                            assert(named(vocab, id as int, token));
                            let j = choose|j: int|
                                0 <= j < before.len() && (#[trigger] before[j]).0@ == token;
                            assert(out@[j].0@ == token);
                        }
                    }
                },
            }
            id = id + 1;
        }
        out
    }

    /// The bytes of a token.
    pub fn token_to_bytes(&self, token: TokenId) -> (r: &[u8])
        requires
            self.wf() || self.decodes(),
            token < self.pipeline().rules.vocab.len(),
        ensures
            r@ == self.pipeline().rules.vocab[token as int],
    {
        proof {
            self.lemma_decodes();
        }
        self.decoder.token_to_bytes(token)
    }

    /// Decode token ids back to a text; `None` if the result is not valid
    /// UTF-8.
    pub fn decode(&self, tokens: &[TokenId]) -> (r: Option<String>)
        requires
            self.wf() || self.decodes(),
            decoder::all_known(self.pipeline().rules.vocab.len() as int, tokens@),
        ensures
            self.decoder_part().decodes_to(self.post(), tokens@, r),
    {
        proof {
            self.lemma_decodes();
        }
        self.decoder.decode(tokens, &self.post_processor)
    }

    /// Byte-level decode without text post-processing.
    pub fn decode_bytes(&self, tokens: &[TokenId]) -> (r: Vec<u8>)
        requires
            self.wf() || self.decodes(),
            decoder::all_known(self.pipeline().rules.vocab.len() as int, tokens@),
        ensures
            r@ == backtracking::token_bytes_of(self.pipeline().rules.vocab, tokens@),
    {
        proof {
            self.lemma_decodes();
        }
        self.decoder.decode_bytes(tokens)
    }

    /// Decode multiple token sequences.
    pub fn decode_batch(&self, sequences: &[&[TokenId]]) -> (r: Vec<Option<String>>)
        requires
            self.wf() || self.decodes(),
            forall|i: int|
                0 <= i < sequences@.len() ==> decoder::all_known(
                    self.pipeline().rules.vocab.len() as int,
                    (#[trigger] sequences@[i])@,
                ),
        ensures
            r@.len() == sequences@.len(),
            forall|i: int|
                0 <= i < r@.len() ==> self.decoder_part().decodes_to(
                    self.post(),
                    sequences@[i]@,
                    #[trigger] r@[i],
                ),
    {
        proof {
            self.lemma_decodes();
        }
        let mut out: Vec<Option<String>> = Vec::new();
        let mut i: usize = 0;
        while i < sequences.len()
            invariant
                self.decodes(),
                forall|i: int|
                    0 <= i < sequences@.len() ==> decoder::all_known(
                        self.pipeline().rules.vocab.len() as int,
                        (#[trigger] sequences@[i])@,
                    ),
                i <= sequences.len(),
                out@.len() == i,
                forall|j: int|
                    0 <= j < i ==> self.decoder_part().decodes_to(
                        self.post(),
                        sequences@[j]@,
                        #[trigger] out@[j],
                    ),
            decreases sequences.len() - i,
        {
            out.push(self.decode(sequences[i]));
            i = i + 1;
        }
        out
    }
}

} // verus!
