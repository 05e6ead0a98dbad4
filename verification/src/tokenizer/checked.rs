//! Which texts can be encoded, and encoding with that question asked first.
//!
//! A text can be encoded where tokens lead to tokens in all that its steps hand
//! to the encoder. The functions of this module ask that of a text; those that
//! encode give nothing where it does not hold.
use crate::added;
use crate::added::split_on_added;
use crate::chunks;
use crate::encoder::backtracking;
use crate::encoder::stream::start;
use crate::normalizer::cow_str;
use crate::padding;
use crate::padding::Encoding;
use crate::pretokie::mask;
use crate::pretokie::rules;
use crate::text;
use crate::text::from_utf8_lossy;
use crate::text::substr;
use crate::tokenizer::batch;
use crate::tokenizer::batch::split_file_docs;
use crate::tokenizer::encode;
use crate::tokenizer::encode::all_texts;
use crate::tokenizer::model;
use crate::tokenizer::model::PARALLEL_CHUNK_THRESHOLD;
use crate::tokenizer::stream::{TokenCount, TokenizeIter};
use crate::tokenizer::Tokenizer;
use crate::types::TokenId;
use vstd::prelude::*;
use vstd::string::*;
use vstd::utf8::*;

verus! {

impl Tokenizer {
    /// Can a normalized text be encoded?
    fn sequential_fits(&self, text: &str) -> (r: bool)
        requires
            self.wf(),
        ensures
            r == model::normalized_fits(self.pipeline(), text.spec_bytes()),
    {
        match &self.pretokenizer {
            None => self.encoder.fits(text.as_bytes(), self.workers),
            Some(p) => {
                let ghost b = text.spec_bytes();
                let ghost all = p.spans(b);
                let ghost vocab = self.pipeline().rules.vocab;
                let ghost w = self.pipeline().workers;
                let pieces = p.for_each_piece(text);
                let mut i: usize = 0;
                while i < pieces.len()
                    invariant
                        self.wf(),
                        vocab == self.pipeline().rules.vocab,
                        w == self.pipeline().workers,
                        model::normalized_fits(self.pipeline(), text.spec_bytes())
                            == model::pieces_fit(vocab, b, all, w),
                        i <= pieces.len(),
                        rules::are_pieces(pieces@, b, all),
                        forall|j: int|
                            0 <= j < i ==> backtracking::fits(
                                vocab,
                                b.subrange((#[trigger] all[j]).0, all[j].1),
                                w,
                            ),
                    decreases pieces.len() - i,
                {
                    let piece: &str = pieces[i];
                    assert(piece.spec_bytes() == b.subrange(all[i as int].0, all[i as int].1));
                    if !self.encoder.fits(piece.as_bytes(), self.workers) {
                        assert(!model::pieces_fit(vocab, b, all, w));
                        return false;
                    }
                    i = i + 1;
                }
                true
            },
        }
    }

    /// Can the tokens of a text be handed out one at a time?
    fn stream_fits(&self, text: &str) -> (r: bool)
        requires
            self.wf(),
        ensures
            r == model::stream_fits(self.pipeline(), text.spec_bytes()),
    {
        match &self.pretokenizer {
            None => self.encoder.is_searchable(text.as_bytes()),
            Some(p) => {
                let ghost b = text.spec_bytes();
                let ghost all = p.spans(b);
                let ghost vocab = self.pipeline().rules.vocab;
                let pieces = p.for_each_piece(text);
                let mut i: usize = 0;
                while i < pieces.len()
                    invariant
                        self.wf(),
                        vocab == self.pipeline().rules.vocab,
                        model::stream_fits(self.pipeline(), text.spec_bytes())
                            == model::pieces_searchable(vocab, b, all),
                        i <= pieces.len(),
                        rules::are_pieces(pieces@, b, all),
                        forall|j: int|
                            0 <= j < i ==> backtracking::searchable(
                                vocab,
                                b.subrange((#[trigger] all[j]).0, all[j].1),
                            ),
                    decreases pieces.len() - i,
                {
                    let piece: &str = pieces[i];
                    assert(piece.spec_bytes() == b.subrange(all[i as int].0, all[i as int].1));
                    if !self.encoder.is_searchable(piece.as_bytes()) {
                        assert(!model::pieces_searchable(vocab, b, all));
                        return false;
                    }
                    i = i + 1;
                }
                true
            },
        }
    }

    /// Can a text that is normalized first be encoded?
    fn plain_fits(&self, text: &str) -> (r: bool)
        requires
            self.wf(),
        ensures
            r == model::plain_fits(self.pipeline(), text@),
    {
        let normalized = self.normalizer.normalize(text);
        self.sequential_fits(cow_str(&normalized))
    }

    /// Can the chunks of a long text be encoded?
    fn chunks_fit(&self, text: &str) -> (r: bool)
        requires
            self.wf(),
            text.spec_bytes().len() >= PARALLEL_CHUNK_THRESHOLD,
        ensures
            r == model::chunked_fits(self.pipeline(), text@),
    {
        let ghost p = self.pipeline();
        let bytes = text.as_bytes();
        proof {
            vstd::arithmetic::div_mod::lemma_div_non_zero(
                bytes@.len() as int,
                self.workers as int,
            );
        }
        let size: usize = bytes.len() / self.workers;
        let delimiters: [u8; 1] = [0x20];
        assert(delimiters@ =~= seq![0x20u8]);
        let parts = chunks::chunks(bytes, size, delimiters.as_slice());
        let ghost all = model::text_chunks(p, text@);
        if parts.len() <= 1 {
            return self.plain_fits(text);
        }
        let texts: Vec<&str> = match all_texts(&parts) {
            Some(t) => t,
            None => return self.plain_fits(text),
        };
        let mut k: usize = 0;
        while k < texts.len()
            invariant
                self.wf(),
                p == self.pipeline(),
                model::chunked_fits(p, text@) == model::plain_fits_all(p, all),
                k <= texts.len(),
                encode::texts_match(texts@, all),
                forall|j: int|
                    0 <= j < k ==> model::plain_fits(p, model::chars_of(#[trigger] all[j])),
            decreases texts.len() - k,
        {
            let part: &str = texts[k];
            proof {
                assert(part.spec_bytes() == all[k as int]);
                encode_utf8_decode_utf8(part@);
            }
            if !self.plain_fits(part) {
                assert(!model::plain_fits_all(p, all));
                return false;
            }
            k = k + 1;
        }
        true
    }

    /// Can a text without added tokens be encoded?
    fn inner_fits(&self, text: &str, allow_parallel: bool) -> (r: bool)
        requires
            self.wf(),
        ensures
            r == model::inner_fits(self.pipeline(), text@, allow_parallel),
    {
        if self.pretokenizer.is_some() && allow_parallel && text.as_bytes().len()
            >= PARALLEL_CHUNK_THRESHOLD {
            self.chunks_fit(text)
        } else {
            self.plain_fits(text)
        }
    }

    /// Can a raw segment between added tokens be encoded?
    fn segment_fits(&self, segment: &str, first: bool, allow_parallel: bool) -> (r: bool)
        requires
            self.wf(),
        ensures
            r == model::segment_fits(self.pipeline(), segment@, first, allow_parallel),
    {
        if self.pretokenizer.is_none() {
            let normalized = self.normalizer.normalize_segment(segment, first);
            self.encoder.fits(cow_str(&normalized).as_bytes(), self.workers)
        } else {
            self.inner_fits(segment, allow_parallel)
        }
    }

    /// Can a piece of normalized text between added tokens be encoded?
    fn prenormalized_fits(&self, piece: &str, allow_parallel: bool) -> (r: bool)
        requires
            self.wf(),
        ensures
            r == model::prenormalized_fits(self.pipeline(), piece@, allow_parallel),
    {
        if self.pretokenizer.is_none() {
            self.encoder.fits(piece.as_bytes(), self.workers)
        } else {
            self.inner_fits(piece, allow_parallel)
        }
    }

    /// Can a raw segment be encoded?
    fn split_segment_fits(&self, segment: &str, first: bool, allow_parallel: bool) -> (r: bool)
        requires
            self.wf(),
        ensures
            r == model::split_segment_fits(self.pipeline(), segment@, first, allow_parallel),
    {
        match &self.norm_added_matcher {
            None => self.segment_fits(segment, first, allow_parallel),
            Some(matcher) => {
                let ghost p = self.pipeline();
                let normalized = self.normalizer.normalize_segment(segment, first);
                let n: &str = cow_str(&normalized);
                let ghost b = n.spec_bytes();
                let parts = split_on_added(n, matcher, self.added_tokens_raw.as_slice());
                let ghost all = added::part_views(parts@);
                let mut i: usize = 0;
                while i < parts.len()
                    invariant
                        self.wf(),
                        p == self.pipeline(),
                        b == n.spec_bytes(),
                        model::split_segment_fits(p, segment@, first, allow_parallel)
                            == model::norm_parts_fit(p, b, all, allow_parallel),
                        i <= parts.len(),
                        all == added::part_views(parts@),
                        added::parts_ok(b, all, self.added_tokens_raw@.len() as int),
                        forall|j: int|
                            0 <= j < i && (#[trigger] all[j]).0 is None
                                ==> model::prenormalized_fits(
                                p,
                                model::chars_of(b.subrange(all[j].1, all[j].2)),
                                allow_parallel,
                            ),
                    decreases parts.len() - i,
                {
                    let (token, s, e) = parts[i];
                    assert(added::part_ok(b, all[i as int], self.added_tokens_raw@.len() as int));
                    if token.is_none() {
                        let piece = substr(n, s, e);
                        proof {
                            encode::lemma_part_is_text(b, piece, s as int, e as int);
                        }
                        if !self.prenormalized_fits(piece, allow_parallel) {
                            assert(!model::norm_parts_fit(p, b, all, allow_parallel));
                            return false;
                        }
                    }
                    i = i + 1;
                }
                true
            },
        }
    }

    /// Can what lies between the added tokens of a text be encoded?
    fn parts_fit(&self, text: &str, allow_parallel: bool) -> (r: bool)
        requires
            self.wf(),
        ensures
            r == model::raw_parts_fit(
                self.pipeline(),
                text.spec_bytes(),
                model::raw_parts(self.pipeline(), text.spec_bytes()),
                allow_parallel,
            ),
    {
        let ghost p = self.pipeline();
        let ghost b = text.spec_bytes();
        let parts = self.raw_parts_of(text);
        let ghost all = model::raw_parts(p, b);
        let mut i: usize = 0;
        while i < parts.len()
            invariant
                self.wf(),
                p == self.pipeline(),
                b == text.spec_bytes(),
                i <= parts.len(),
                all == model::raw_parts(p, b),
                all == added::part_views(parts@),
                added::parts_ok(b, all, self.added_tokens_raw@.len() as int),
                forall|j: int|
                    0 <= j < i && (#[trigger] all[j]).0 is None ==> model::split_segment_fits(
                        p,
                        model::chars_of(b.subrange(all[j].1, all[j].2)),
                        all[j].1 == 0,
                        allow_parallel,
                    ),
            decreases parts.len() - i,
        {
            let (token, s, e) = parts[i];
            assert(added::part_ok(b, all[i as int], self.added_tokens_raw@.len() as int));
            if token.is_none() {
                let segment = substr(text, s, e);
                proof {
                    encode::lemma_part_is_text(b, segment, s as int, e as int);
                }
                if !self.split_segment_fits(segment, s == 0, allow_parallel) {
                    assert(!model::raw_parts_fit(p, b, all, allow_parallel));
                    return false;
                }
            }
            i = i + 1;
        }
        true
    }

    /// Can a text be encoded? A batch worker does not share out its texts any
    /// further.
    pub fn can_encode(&self, text: &str, allow_parallel: bool) -> (r: bool)
        requires
            self.wf(),
        ensures
            r == model::encodable(self.pipeline(), text@, allow_parallel),
    {
        if self.raw_added_matcher.is_some() || self.norm_added_matcher.is_some() {
            self.parts_fit(text, allow_parallel)
        } else {
            self.inner_fits(text, allow_parallel)
        }
    }

    /// Can each of multiple texts be encoded?
    pub fn can_encode_batch(&self, texts: &[&str]) -> (r: bool)
        requires
            self.wf(),
        ensures
            r == self.texts_encodable(texts@),
    {
        let single = texts.len() <= self.workers || self.workers == 1;
        let mut i: usize = 0;
        while i < texts.len()
            invariant
                self.wf(),
                single == self.one_by_one(texts@.len() as int),
                i <= texts.len(),
                forall|j: int|
                    0 <= j < i ==> model::encodable(
                        self.pipeline(),
                        (#[trigger] texts@[j])@,
                        single,
                    ),
            decreases texts.len() - i,
        {
            if !self.can_encode(texts[i], single) {
                assert(!self.texts_encodable(texts@));
                return false;
            }
            i = i + 1;
        }
        true
    }

    /// Can each of some documents be encoded? What is not valid UTF-8 becomes
    /// U+FFFD.
    pub fn can_encode_docs(&self, docs: &[&[u8]]) -> (r: bool)
        requires
            self.wf(),
        ensures
            r == self.docs_encodable(batch::contents(docs@)),
    {
        let ghost all = batch::contents(docs@);
        let mut i: usize = 0;
        while i < docs.len()
            invariant
                self.wf(),
                all == batch::contents(docs@),
                i <= docs.len(),
                forall|j: int|
                    0 <= j < i ==> model::encodable(
                        self.pipeline(),
                        batch::doc_text(#[trigger] all[j]),
                        false,
                    ),
            decreases docs.len() - i,
        {
            let doc: &[u8] = docs[i];
            assert(all[i as int] == doc@);
            let fits = match core::str::from_utf8(doc) {
                Ok(s) => {
                    proof {
                        encode_utf8_decode_utf8(s@);
                    }
                    self.can_encode(s, false)
                },
                Err(_) => {
                    let s = from_utf8_lossy(doc);
                    self.can_encode(s.as_str(), false)
                },
            };
            if !fits {
                assert(!self.docs_encodable(all));
                return false;
            }
            i = i + 1;
        }
        true
    }
}

impl Tokenizer {
    /// [`Self::encode`], where the text can be encoded.
    pub fn try_encode(&self, text: &str, add_special_tokens: bool) -> (r: Option<Encoding>)
        requires
            self.wf(),
        ensures
            r is Some <==> model::encodable(self.pipeline(), text@, true),
            r matches Some(e) ==> e.model() == self.encoded(text@, add_special_tokens, true),
    {
        if self.can_encode(text, true) {
            Some(self.encode(text, add_special_tokens))
        } else {
            None
        }
    }

    /// [`Self::encode_ids`], where the text can be encoded.
    pub fn try_encode_ids(&self, text: &str, add_special_tokens: bool) -> (r: Option<Vec<TokenId>>)
        requires
            self.wf(),
        ensures
            r is Some <==> model::encodable(self.pipeline(), text@, true),
            r matches Some(v) ==> v@ == self.encoded_ids(text@, add_special_tokens, true),
    {
        if self.can_encode(text, true) {
            Some(self.encode_ids(text, add_special_tokens))
        } else {
            None
        }
    }

    /// [`Self::encode_with_offsets`], where the text can be encoded.
    pub fn try_encode_with_offsets(
        &self,
        text: &str,
        add_special_tokens: bool,
    ) -> (r: Option<Encoding>)
        requires
            self.wf(),
        ensures
            r is Some <==> model::plain_fits(self.pipeline(), text@),
            r matches Some(e) ==> exists|offsets: Seq<(usize, usize)>| #[trigger]
                mask::offsets(offsets) == encode::normalized_offsets(
                    self.pipeline(),
                    text::utf8(self.pipeline().normalizer.normal_form(text@)),
                ) && e.model() == self.encoded_with_offsets(text@, offsets, add_special_tokens),
    {
        if self.plain_fits(text) {
            Some(self.encode_with_offsets(text, add_special_tokens))
        } else {
            None
        }
    }

    /// [`Self::encode_pair`], where both texts can be encoded.
    pub fn try_encode_pair(
        &self,
        text_a: &str,
        text_b: &str,
        add_special_tokens: bool,
    ) -> (r: Option<Encoding>)
        requires
            self.wf(),
        ensures
            r is Some <==> model::encodable(self.pipeline(), text_a@, true) && model::encodable(
                self.pipeline(),
                text_b@,
                true,
            ),
            r matches Some(e) ==> e.model() == self.encoded_pair(
                text_a@,
                text_b@,
                add_special_tokens,
            ),
    {
        if self.can_encode(text_a, true) && self.can_encode(text_b, true) {
            Some(self.encode_pair(text_a, text_b, add_special_tokens))
        } else {
            None
        }
    }

    /// [`Self::count_tokens`], where the text can be encoded.
    pub fn try_count_tokens(&self, text: &str) -> (r: Option<usize>)
        requires
            self.wf(),
        ensures
            r is Some <==> model::encodable(self.pipeline(), text@, true),
            r matches Some(n) ==> n == model::raw_tokens(self.pipeline(), text@, true).len(),
    {
        if self.can_encode(text, true) {
            Some(self.count_tokens(text))
        } else {
            None
        }
    }

    /// [`Self::token_count`], where the text can be encoded.
    pub fn try_token_count<'a>(&'a self, text: &'a str) -> (r: Option<TokenCount<'a>>)
        requires
            self.wf(),
        ensures
            r is Some <==> model::encodable(self.pipeline(), text@, true),
            r matches Some(c) ==> c.wf() && c.fresh() && c.total() == model::raw_tokens(
                self.pipeline(),
                text@,
                true,
            ).len(),
    {
        if self.can_encode(text, true) {
            Some(self.token_count(text))
        } else {
            None
        }
    }

    /// [`Self::encode_iter`], where the text as it stands can be encoded.
    pub fn try_encode_iter<'a>(&'a self, text: &'a str) -> (r: Option<TokenizeIter<'a>>)
        requires
            self.wf(),
        ensures
            r is Some <==> model::stream_fits(self.pipeline(), text.spec_bytes()),
            r matches Some(it) ==> it.wf() && it.rules() == self.pipeline().rules,
            r matches Some(it) ==> match self.pipeline().pretok {
                Some(p) => it.text() == text.spec_bytes() && it.flow().current is None
                    && it.flow().left == p.spans(text.spec_bytes()),
                None => it.flow().left.len() == 0 && it.flow().current == Some(
                    (
                        text.spec_bytes(),
                        start(self.pipeline().rules, text.spec_bytes()),
                    ),
                ),
            },
    {
        if self.stream_fits(text) {
            Some(self.encode_iter(text))
        } else {
            None
        }
    }

    /// [`Self::encode_batch`], where all texts can be encoded.
    pub fn try_encode_batch(
        &self,
        texts: &[&str],
        add_special_tokens: bool,
    ) -> (r: Option<Vec<Encoding>>)
        requires
            self.wf(),
        ensures
            r is Some <==> self.texts_encodable(texts@),
            r matches Some(v) ==> padding::encoding_views(v@) == match self.pad_params() {
                Some(p) => padding::padded_batch(self.encoded_all(texts@, add_special_tokens), p),
                None => self.encoded_all(texts@, add_special_tokens),
            },
    {
        if self.can_encode_batch(texts) {
            Some(self.encode_batch(texts, add_special_tokens))
        } else {
            None
        }
    }

    /// [`Self::encode_batch_flat`], where all texts can be encoded.
    pub fn try_encode_batch_flat(
        &self,
        texts: &[&str],
        add_special_tokens: bool,
    ) -> (r: Option<(Vec<TokenId>, Vec<u64>)>)
        requires
            self.wf(),
        ensures
            r is Some <==> self.texts_encodable(texts@),
            r matches Some(v) ==> v.0@ == batch::flat(self.ids_of_texts(texts@, add_special_tokens))
                && v.1@ == batch::lengths(self.ids_of_texts(texts@, add_special_tokens)),
    {
        if self.can_encode_batch(texts) {
            Some(self.encode_batch_flat(texts, add_special_tokens))
        } else {
            None
        }
    }

    /// [`Self::count_tokens_batch`], where all texts can be encoded.
    pub fn try_count_tokens_batch(&self, texts: &[&str]) -> (r: Option<Vec<usize>>)
        requires
            self.wf(),
        ensures
            r is Some <==> self.texts_encodable(texts@),
            r matches Some(v) ==> v@.len() == texts@.len() && forall|i: int|
                0 <= i < texts@.len() ==> #[trigger] v@[i] == model::raw_tokens(
                    self.pipeline(),
                    texts@[i]@,
                    self.one_by_one(texts@.len() as int),
                ).len(),
    {
        if self.can_encode_batch(texts) {
            Some(self.count_tokens_batch(texts))
        } else {
            None
        }
    }

    /// [`Self::encode_buffers_flat`], where all documents can be encoded.
    pub fn try_encode_buffers_flat(
        &self,
        buffers: &[Vec<u8>],
        separator: &[u8],
        add_special_tokens: bool,
    ) -> (r: Option<(Vec<TokenId>, Vec<u64>)>)
        requires
            self.wf(),
        ensures
            r is Some <==> self.docs_encodable(batch::docs_of_all(buffers@, separator@)),
            r matches Some(v) ==> {
                let parts = self.ids_of_docs(
                    batch::docs_of_all(buffers@, separator@),
                    add_special_tokens,
                );
                &&& v.0@ == batch::flat(parts)
                &&& v.1@.len() == parts.len() + 1
                &&& forall|i: int|
                    0 <= i <= parts.len() ==> #[trigger] v.1@[i] == batch::sum_to(
                        batch::lengths(parts),
                        i,
                    )
            },
    {
        if self.can_encode_docs(split_file_docs(buffers, separator).as_slice()) {
            Some(self.encode_buffers_flat(buffers, separator, add_special_tokens))
        } else {
            None
        }
    }

    /// [`Self::count_tokens_buffers`], where all documents can be encoded.
    pub fn try_count_tokens_buffers(
        &self,
        buffers: &[Vec<u8>],
        separator: &[u8],
    ) -> (r: Option<Option<usize>>)
        requires
            self.wf(),
        ensures
            r is Some <==> self.docs_encodable(batch::docs_of_all(buffers@, separator@)),
            r matches Some(c) ==> match c {
                Some(n) => n == self.count_of_docs(batch::docs_of_all(buffers@, separator@)),
                None => self.count_of_docs(batch::docs_of_all(buffers@, separator@)) > usize::MAX,
            },
    {
        if self.can_encode_docs(split_file_docs(buffers, separator).as_slice()) {
            Some(self.count_tokens_buffers(buffers, separator))
        } else {
            None
        }
    }
}

/// A tokenizer with a token for every byte that texts can hold can encode every
/// text: with and without offsets, and one token at a time.
pub proof fn law_complete_encodes_all(t: Tokenizer, s: Seq<char>, parallel: bool)
    requires
        t.wf(),
        t.complete(),
    ensures
        model::encodable(t.pipeline(), s, parallel),
        model::plain_fits(t.pipeline(), s),
        model::stream_fits(t.pipeline(), text::utf8(s)),
{
    t.lemma_parts();
    model::law_complete_is_encodable(t.pipeline(), s, parallel);
}

/// A tokenizer with a token for every byte that texts can hold can encode every
/// batch.
pub proof fn law_complete_encodes_batches(t: Tokenizer, texts: Seq<&str>, docs: Seq<Seq<u8>>)
    requires
        t.wf(),
        t.complete(),
    ensures
        t.texts_encodable(texts),
        t.docs_encodable(docs),
{
    assert forall|i: int| 0 <= i < texts.len() implies model::encodable(
        t.pipeline(),
        (#[trigger] texts[i])@,
        t.one_by_one(texts.len() as int),
    ) by {
        law_complete_encodes_all(t, texts[i]@, t.one_by_one(texts.len() as int));
    }
    assert forall|i: int| 0 <= i < docs.len() implies model::encodable(
        t.pipeline(),
        batch::doc_text(#[trigger] docs[i]),
        false,
    ) by {
        law_complete_encodes_all(t, batch::doc_text(docs[i]), false);
    }
}

} // verus!
