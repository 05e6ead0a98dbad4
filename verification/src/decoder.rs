//! From tokens back to text.
use crate::bytes::push_bytes;
use crate::encoder::backtracking;
use crate::encoder::EncoderType;
use crate::normalizer::cow_str;
use crate::postprocessor;
use crate::postprocessor::PostProcessor;
use crate::pretokie::util;
use crate::replace;
use crate::replace::fnr;
use crate::text;
use crate::text::substr;
use crate::types::TokenId;
use vstd::prelude::*;
use vstd::slice::*;
use vstd::string::*;
use vstd::utf8::*;

verus! {

/// The bytes of all tokens in one buffer, and where each token starts in it.
#[derive(Clone, Debug, PartialEq, Eq)]
pub struct VocabDecoder {
    data: Vec<u8>,
    offsets: Vec<u32>,
}

/// The offsets lie in the buffer and never go back.
pub open spec fn offsets_fit(offsets: Seq<u32>, len: int) -> bool {
    &&& offsets.len() > 0
    &&& offsets.last() <= len
    &&& forall|i: int, j: int| 0 <= i <= j < offsets.len() ==> offsets[i] <= offsets[j]
}

/// The tokens that a buffer with offsets holds.
pub open spec fn tokens_of(data: Seq<u8>, offsets: Seq<u32>) -> Seq<Seq<u8>> {
    Seq::new(
        (offsets.len() - 1) as nat,
        |i: int| data.subrange(offsets[i] as int, offsets[i + 1] as int),
    )
}

/// What byte strings take up together.
pub open spec fn total_len(v: Seq<Seq<u8>>) -> int
    decreases v.len(),
{
    if v.len() == 0 {
        0
    } else {
        total_len(v.drop_last()) + v.last().len()
    }
}

proof fn lemma_total_len(v: Seq<Seq<u8>>, i: int)
    requires
        0 <= i <= v.len(),
    ensures
        0 <= total_len(v.subrange(0, i)) <= total_len(v),
    decreases v.len(),
{
    if i < v.len() {
        lemma_total_len(v.drop_last(), i);
        assert(v.drop_last().subrange(0, i) =~= v.subrange(0, i));
    } else {
        assert(v.subrange(0, i) =~= v);
        if v.len() > 0 {
            lemma_total_len(v.drop_last(), v.len() - 1);
        }
    }
}

/// Do the offsets lie in the buffer and never go back?
pub fn check_offsets(offsets: &[u32], len: usize) -> (r: bool)
    ensures
        r == offsets_fit(offsets@, len as int),
{
    if offsets.len() == 0 || offsets[offsets.len() - 1] as usize > len {
        return false;
    }
    let mut i: usize = 1;
    while i < offsets.len()
        invariant
            1 <= i <= offsets.len(),
            forall|j: int, k: int| 0 <= j <= k < i ==> offsets@[j] <= offsets@[k],
        decreases offsets.len() - i,
    {
        if offsets[i - 1] > offsets[i] {
            assert(offsets@[i - 1] > offsets@[i as int]);
            return false;
        }
        i = i + 1;
    }
    true
}

impl VocabDecoder {
    /// The bytes of each token.
    pub closed spec fn tokens(&self) -> Seq<Seq<u8>> {
        tokens_of(self.data@, self.offsets@)
    }

    /// The buffer.
    pub closed spec fn buffer(&self) -> Seq<u8> {
        self.data@
    }

    /// Where the tokens start in the buffer.
    pub closed spec fn starts(&self) -> Seq<u32> {
        self.offsets@
    }

    /// The offsets fit the buffer.
    pub closed spec fn wf(&self) -> bool {
        offsets_fit(self.offsets@, self.data@.len() as int)
    }

    /// A decoder for the tokens with these bytes.
    pub fn new(token_bytes: &[Vec<u8>]) -> (r: Self)
        requires
            total_len(backtracking::views(token_bytes@)) <= u32::MAX,
        ensures
            r.wf(),
            r.tokens() == backtracking::views(token_bytes@),
    {
        let ghost all = backtracking::views(token_bytes@);
        let mut data: Vec<u8> = Vec::new();
        let mut offsets: Vec<u32> = Vec::new();
        offsets.push(0);
        let mut i: usize = 0;
        assert(all.subrange(0, 0) =~= seq![]);
        while i < token_bytes.len()
            invariant
                i <= token_bytes.len(),
                all == backtracking::views(token_bytes@),
                total_len(all) <= u32::MAX,
                data@.len() == total_len(all.subrange(0, i as int)),
                offsets@.len() == i + 1,
                offsets_fit(offsets@, data@.len() as int),
                offsets@.last() == data@.len(),
                forall|k: int|
                    0 <= k < i ==> #[trigger] tokens_of(data@, offsets@)[k] == all[k],
            decreases token_bytes.len() - i,
        {
            let ghost before = data@;
            let ghost starts = offsets@;
            proof {
                let s = all.subrange(0, i + 1);
                assert(s.drop_last() =~= all.subrange(0, i as int));
                assert(s.last() == all[i as int]);
                lemma_total_len(all, i + 1);
            }
            push_bytes(&mut data, token_bytes[i].as_slice());
            offsets.push(data.len() as u32);
            proof {
                assert forall|k: int| 0 <= k < i + 1 implies #[trigger] tokens_of(
                    data@,
                    offsets@,
                )[k] == all[k] by {
                    if k < i {
                        assert(tokens_of(before, starts)[k] == all[k]);
                        assert(data@.subrange(offsets@[k] as int, offsets@[k + 1] as int)
                            =~= before.subrange(starts[k] as int, starts[k + 1] as int));
                    } else {
                        assert(data@.subrange(offsets@[k] as int, offsets@[k + 1] as int)
                            =~= all[k]);
                    }
                }
            }
            i = i + 1;
        }
        let r = VocabDecoder { data, offsets };
        assert(r.tokens() =~= all);
        r
    }

    /// A decoder of a buffer with offsets.
    pub fn from_parts(data: Vec<u8>, offsets: Vec<u32>) -> (r: Self)
        requires
            offsets_fit(offsets@, data@.len() as int),
        ensures
            r.wf(),
            r.tokens() == tokens_of(data@, offsets@),
            r.buffer() == data@,
            r.starts() == offsets@,
    {
        VocabDecoder { data, offsets }
    }

    /// There is one offset more than there are tokens.
    pub proof fn lemma_starts(&self)
        requires
            self.wf(),
        ensures
            self.starts().len() == self.tokens().len() + 1,
            self.tokens() == tokens_of(self.buffer(), self.starts()),
            offsets_fit(self.starts(), self.buffer().len() as int),
    {
    }

    /// The buffer and the offsets.
    pub fn as_parts(&self) -> (r: (&[u8], &[u32]))
        ensures
            r.0@ == self.buffer(),
            r.1@ == self.starts(),
            self.wf() ==> self.tokens() == tokens_of(r.0@, r.1@) && offsets_fit(
                r.1@,
                r.0@.len() as int,
            ),
    {
        (self.data.as_slice(), self.offsets.as_slice())
    }

    /// Number of tokens.
    pub fn vocab_size(&self) -> (n: usize)
        requires
            self.wf(),
        ensures
            n == self.tokens().len(),
    {
        self.offsets.len() - 1
    }

    /// The bytes of a token.
    pub fn token_to_bytes(&self, id: TokenId) -> (r: &[u8])
        requires
            self.wf(),
            id < self.tokens().len(),
        ensures
            r@ == self.tokens()[id as int],
    {
        let n: usize = self.offsets.len();
        let i: usize = id as usize;
        assert(i + 1 < n);
        let s: usize = self.offsets[i] as usize;
        let e: usize = self.offsets[i + 1] as usize;
        slice_subrange(self.data.as_slice(), s, e)
    }

    /// The length of a token in bytes.
    pub fn token_len(&self, id: TokenId) -> (n: usize)
        requires
            self.wf(),
            id < self.tokens().len(),
        ensures
            n == self.tokens()[id as int].len(),
    {
        self.token_to_bytes(id).len()
    }

    /// The bytes of tokens, one behind the other.
    pub fn decode(&self, tokens: &[TokenId]) -> (r: Vec<u8>)
        requires
            self.wf(),
            all_known(self.tokens().len() as int, tokens@),
        ensures
            r@ == backtracking::token_bytes_of(self.tokens(), tokens@),
    {
        let mut out: Vec<u8> = Vec::new();
        let mut i: usize = 0;
        assert(tokens@.subrange(0, 0) =~= seq![]);
        while i < tokens.len()
            invariant
                self.wf(),
                i <= tokens.len(),
                all_known(self.tokens().len() as int, tokens@),
                out@ == backtracking::token_bytes_of(
                    self.tokens(),
                    tokens@.subrange(0, i as int),
                ),
            decreases tokens.len() - i,
        {
            push_bytes(&mut out, self.token_to_bytes(tokens[i]));
            proof {
                let s = tokens@.subrange(0, i + 1);
                assert(s.drop_last() =~= tokens@.subrange(0, i as int));
                assert(s.last() == tokens@[i as int]);
            }
            i = i + 1;
        }
        assert(tokens@.subrange(0, tokens@.len() as int) =~= tokens@);
        out
    }
}

/// Every token is one of the first `n`.
pub open spec fn all_known(n: int, tokens: Seq<TokenId>) -> bool {
    forall|i: int| 0 <= i < tokens.len() ==> #[trigger] tokens[i] < n
}

/// How tokens turn into text.
#[derive(Clone, Copy, Debug, PartialEq, Eq, Structural)]
pub enum DecoderType {
    /// The bytes of the tokens.
    ByteLevel,
    /// Words with spaces in between; `##` marks a word that goes on.
    WordPiece,
    /// Spaces in place of `▁`, but for one at the start.
    Metaspace,
}

/// The decoder type that goes with an encoder type.
pub open spec fn decoder_type_of(e: EncoderType) -> DecoderType {
    match e {
        EncoderType::Backtracking => DecoderType::ByteLevel,
        EncoderType::Simple => DecoderType::ByteLevel,
        EncoderType::WordPiece => DecoderType::WordPiece,
        EncoderType::SentencePiece => DecoderType::Metaspace,
        EncoderType::Unigram => DecoderType::Metaspace,
    }
}

impl DecoderType {
    /// The decoder type that goes with an encoder type.
    pub fn from_encoder_type(e: EncoderType) -> (r: Self)
        ensures
            r == decoder_type_of(e),
    {
        match e {
            EncoderType::Backtracking => DecoderType::ByteLevel,
            EncoderType::Simple => DecoderType::ByteLevel,
            EncoderType::WordPiece => DecoderType::WordPiece,
            EncoderType::SentencePiece => DecoderType::Metaspace,
            EncoderType::Unigram => DecoderType::Metaspace,
        }
    }
}

/// One more token of a text of words: nothing of a special token, the rest of
/// a token with `##`, else the token behind a space, if anything stands before it.
pub open spec fn word_step(acc: Seq<u8>, token: Seq<u8>, special: bool) -> Seq<u8> {
    if special {
        acc
    } else if token.len() >= 2 && token[0] == 0x23 && token[1] == 0x23 {
        acc + token.subrange(2, token.len() as int)
    } else if acc.len() == 0 {
        token
    } else {
        acc + seq![0x20u8] + token
    }
}

/// The text of word tokens.
pub open spec fn words_of(
    vocab: Seq<Seq<u8>>,
    f: postprocessor::Frame,
    tokens: Seq<TokenId>,
) -> Seq<u8>
    decreases tokens.len(),
{
    if tokens.len() == 0 {
        seq![]
    } else {
        word_step(
            words_of(vocab, f, tokens.drop_last()),
            vocab[tokens.last() as int],
            postprocessor::frame_has(f, tokens.last()),
        )
    }
}

/// The bytes of `▁`.
pub open spec fn metaspace() -> Seq<u8> {
    seq![0xe2u8, 0x96u8, 0x81u8]
}

/// `▁` as spaces, without a space at the start.
pub open spec fn unspaced(b: Seq<u8>) -> Seq<u8> {
    let r = replace::replaced(b, metaspace(), seq![0x20u8]);
    if r.len() > 0 && r[0] == 0x20 {
        r.subrange(1, r.len() as int)
    } else {
        r
    }
}

/// A text with these bytes, if they are valid UTF-8.
pub open spec fn is_text_of(r: Option<String>, b: Seq<u8>) -> bool {
    match r {
        Some(s) => valid_utf8(b) && text::utf8(s@) == b,
        None => !valid_utf8(b),
    }
}

/// The text with these bytes, if they are valid UTF-8.
pub fn string_of(b: &[u8]) -> (r: Option<String>)
    ensures
        is_text_of(r, b@),
{
    match core::str::from_utf8(b) {
        Ok(s) => {
            let mut out = String::new();
            out.push_str(s);
            assert(out@ =~= s@);
            Some(out)
        },
        Err(_) => None,
    }
}

/// Tokens and how they turn into text.
#[derive(Clone, Debug, PartialEq, Eq)]
pub struct Decoder {
    vocab: VocabDecoder,
    kind: DecoderType,
}

impl Decoder {
    /// The bytes of each token.
    pub closed spec fn tokens(&self) -> Seq<Seq<u8>> {
        self.vocab.tokens()
    }

    /// The vocabulary.
    pub closed spec fn vocabulary(&self) -> VocabDecoder {
        self.vocab
    }

    /// How tokens turn into text.
    pub closed spec fn kind(&self) -> DecoderType {
        self.kind
    }

    /// The vocabulary is in order.
    pub closed spec fn wf(&self) -> bool {
        self.vocab.wf()
    }

    /// A byte-level decoder.
    pub fn new(token_bytes: &[Vec<u8>]) -> (r: Self)
        requires
            total_len(backtracking::views(token_bytes@)) <= u32::MAX,
        ensures
            r.wf(),
            r.tokens() == backtracking::views(token_bytes@),
            r.kind() == DecoderType::ByteLevel,
    {
        Decoder { vocab: VocabDecoder::new(token_bytes), kind: DecoderType::ByteLevel }
    }

    /// The decoder that goes with an encoder.
    pub fn for_encoder(token_bytes: &[Vec<u8>], e: EncoderType) -> (r: Self)
        requires
            total_len(backtracking::views(token_bytes@)) <= u32::MAX,
        ensures
            r.wf(),
            r.tokens() == backtracking::views(token_bytes@),
            r.kind() == decoder_type_of(e),
    {
        Decoder { vocab: VocabDecoder::new(token_bytes), kind: DecoderType::from_encoder_type(e) }
    }

    /// A decoder of a buffer with offsets.
    pub fn from_parts(data: Vec<u8>, offsets: Vec<u32>, kind: DecoderType) -> (r: Self)
        requires
            offsets_fit(offsets@, data@.len() as int),
        ensures
            r.wf(),
            r.tokens() == tokens_of(data@, offsets@),
            r.kind() == kind,
            r.vocabulary().buffer() == data@,
            r.vocabulary().starts() == offsets@,
    {
        Decoder { vocab: VocabDecoder::from_parts(data, offsets), kind }
    }

    /// The vocabulary has the tokens of the decoder.
    pub proof fn lemma_vocabulary(&self)
        ensures
            self.vocabulary().wf() == self.wf(),
            self.vocabulary().tokens() == self.tokens(),
    {
    }

    /// How tokens turn into text.
    pub fn decoder_type(&self) -> (r: DecoderType)
        ensures
            r == self.kind(),
    {
        self.kind
    }

    /// The vocabulary.
    pub fn vocab(&self) -> (r: &VocabDecoder)
        ensures
            *r == self.vocabulary(),
            r.wf() == self.wf(),
            r.tokens() == self.tokens(),
    {
        &self.vocab
    }

    /// Number of tokens.
    pub fn vocab_size(&self) -> (n: usize)
        requires
            self.wf(),
        ensures
            n == self.tokens().len(),
    {
        self.vocab.vocab_size()
    }

    /// The bytes of a token.
    pub fn token_to_bytes(&self, id: TokenId) -> (r: &[u8])
        requires
            self.wf(),
            id < self.tokens().len(),
        ensures
            r@ == self.tokens()[id as int],
    {
        self.vocab.token_to_bytes(id)
    }

    /// The length of a token in bytes.
    pub fn token_len(&self, id: TokenId) -> (n: usize)
        requires
            self.wf(),
            id < self.tokens().len(),
        ensures
            n == self.tokens()[id as int].len(),
    {
        self.vocab.token_len(id)
    }

    /// Raw byte-level decode without text post-processing.
    pub fn decode_bytes(&self, tokens: &[TokenId]) -> (r: Vec<u8>)
        requires
            self.wf(),
            all_known(self.tokens().len() as int, tokens@),
        ensures
            r@ == backtracking::token_bytes_of(self.tokens(), tokens@),
    {
        self.vocab.decode(tokens)
    }

    /// The bytes that tokens stand for, as text.
    pub open spec fn decoded(&self, pp: PostProcessor, tokens: Seq<TokenId>) -> Seq<u8> {
        match self.kind() {
            DecoderType::ByteLevel => backtracking::token_bytes_of(self.tokens(), tokens),
            DecoderType::WordPiece => words_of(self.tokens(), pp.frame(), tokens),
            DecoderType::Metaspace => unspaced(
                backtracking::token_bytes_of(self.tokens(), tokens),
            ),
        }
    }

    /// Tokens decode to this text; to none where their bytes are not valid UTF-8.
    pub open spec fn decodes_to(
        &self,
        pp: PostProcessor,
        tokens: Seq<TokenId>,
        r: Option<String>,
    ) -> bool {
        if self.kind() == DecoderType::Metaspace {
            &&& r is Some <==> valid_utf8(backtracking::token_bytes_of(self.tokens(), tokens))
            &&& r matches Some(s) ==> text::utf8(s@) == self.decoded(pp, tokens)
        } else {
            is_text_of(r, self.decoded(pp, tokens))
        }
    }

    /// Decode tokens to a text; `None` where their bytes are not valid UTF-8.
    pub fn decode(&self, tokens: &[TokenId], pp: &PostProcessor) -> (r: Option<String>)
        requires
            self.wf(),
            all_known(self.tokens().len() as int, tokens@),
        ensures
            self.decodes_to(*pp, tokens@, r),
    {
        match self.kind {
            DecoderType::ByteLevel => string_of(self.vocab.decode(tokens).as_slice()),
            DecoderType::WordPiece => string_of(self.decode_words(tokens, pp).as_slice()),
            DecoderType::Metaspace => {
                let bytes = self.vocab.decode(tokens);
                match core::str::from_utf8(bytes.as_slice()) {
                    Ok(s) => {
                        let spaced = fnr(s, "\u{2581}", " ");
                        proof {
                            reveal_strlit("\u{2581}");
                            reveal_strlit(" ");
                            text::lemma_utf8_ascii(' ');
                            assert(" "@ =~= seq![' ']);
                            assert("\u{2581}"@ =~= seq!['\u{2581}']);
                            lemma_metaspace();
                        }
                        Some(without_leading_space(cow_str(&spaced)))
                    },
                    Err(_) => None,
                }
            },
        }
    }

    /// The text of word tokens, as bytes.
    fn decode_words(&self, tokens: &[TokenId], pp: &PostProcessor) -> (r: Vec<u8>)
        requires
            self.wf(),
            all_known(self.tokens().len() as int, tokens@),
        ensures
            r@ == words_of(self.tokens(), pp.frame(), tokens@),
    {
        let ghost f = pp.frame();
        let mut out: Vec<u8> = Vec::new();
        let mut i: usize = 0;
        assert(tokens@.subrange(0, 0) =~= seq![]);
        while i < tokens.len()
            invariant
                self.wf(),
                f == pp.frame(),
                i <= tokens.len(),
                all_known(self.tokens().len() as int, tokens@),
                out@ == words_of(self.tokens(), f, tokens@.subrange(0, i as int)),
            decreases tokens.len() - i,
        {
            proof {
                let s = tokens@.subrange(0, i + 1);
                assert(s.drop_last() =~= tokens@.subrange(0, i as int));
                assert(s.last() == tokens@[i as int]);
            }
            let ghost before = out@;
            let t: TokenId = tokens[i];
            if !pp.is_special_token(t) {
                let b = self.vocab.token_to_bytes(t);
                if b.len() >= 2 && b[0] == 0x23 && b[1] == 0x23 {
                    push_bytes(&mut out, slice_subrange(b, 2, b.len()));
                } else {
                    if out.len() > 0 {
                        out.push(0x20);
                    }
                    push_bytes(&mut out, b);
                }
                assert(out@ =~= word_step(before, b@, false));
            }
            i = i + 1;
        }
        assert(tokens@.subrange(0, tokens@.len() as int) =~= tokens@);
        out
    }
}

/// `▁` takes three bytes.
pub proof fn lemma_metaspace()
    ensures
        text::utf8(seq!['\u{2581}']) == metaspace(),
{
    let s = seq!['\u{2581}'];
    assert(s.drop_first() =~= seq![]);
    assert(encode_utf8(s.drop_first()) =~= seq![]);
    let c: u32 = 0x2581;
    assert(((c >> 12) & 0x0F) == 2 && ((c >> 6) & 0x3F) == 0x16 && (c & 0x3F) == 1) by (bit_vector)
        requires
            c == 0x2581u32,
    ;
    assert((0xE0u8 | 2u8) == 0xe2u8 && (0x80u8 | 0x16u8) == 0x96u8 && (0x80u8 | 1u8) == 0x81u8)
        by (bit_vector);
    assert(text::utf8(s) =~= metaspace());
}

/// A text without one space at its start.
fn without_leading_space(s: &str) -> (r: String)
    ensures
        text::utf8(r@) == ({
            let b = text::utf8(s@);
            if b.len() > 0 && b[0] == 0x20 {
                b.subrange(1, b.len() as int)
            } else {
                b
            }
        }),
{
    let b = s.as_bytes();
    let mut out = String::new();
    if b.len() > 0 && b[0] == 0x20 {
        proof {
            encode_utf8_valid_utf8(s@);
            util::lemma_boundary_ends(b@);
            util::lemma_after(b@, 0);
        }
        let rest = substr(s, 1, b.len());
        out.push_str(rest);
        assert(out@ =~= rest@);
    } else {
        out.push_str(s);
        assert(out@ =~= s@);
    }
    out
}

} // verus!
