//! Settings and parts of a tokenizer.
use crate::added;
use crate::added::AddedTokenSpec;
use crate::decoder::{Decoder, DecoderType};
use crate::encoder::{Encoder, EncoderType};
use crate::normalizer::Normalizer;
use crate::padding::{PaddingParams, TruncationParams};
use crate::postprocessor;
use crate::postprocessor::PostProcessor;
use crate::pretok::{PretokType, Pretokenizer};
use crate::tokenizer::model::Pipeline;
use crate::tokenizer;
use crate::tokenizer::Tokenizer;
use crate::types::TokenId;
use vstd::prelude::*;

verus! {

impl Tokenizer {
    /// The parts of a tokenizer that fit each other are in order themselves.
    pub proof fn lemma_parts(&self)
        requires
            self.wf(),
        ensures
            self.encoder_part().wf(),
            self.decoder_part().wf(),
            self.encoder_part().rules() == self.pipeline().rules,
            self.decoder_part().tokens() == self.pipeline().rules.vocab,
            self.pipeline().normalizer.wf(),
            postprocessor::frame_fits(self.post().frame()),
            tokenizer::added_fit(self.pipeline()),
            self.pipeline().raw matches Some(p) ==> tokenizer::finds_tokens(
                p,
                self.pipeline().added.len() as int,
            ),
            self.pipeline().norm matches Some(p) ==> tokenizer::finds_tokens(
                p,
                self.pipeline().added.len() as int,
            ),
    {
    }

    /// The added-token list behind the matchers.
    pub fn added_tokens_raw(&self) -> (r: &[AddedTokenSpec])
        ensures
            added::models(r@) == self.pipeline().added,
    {
        self.added_tokens_raw.as_slice()
    }

    /// Whether this tokenizer came from a file that stores added tokens.
    pub fn added_tokens_serialized(&self) -> (r: bool)
        ensures
            r == self.from_added_file(),
    {
        self.added_tokens_serialized
    }

    pub(crate) fn mark_added_tokens_serialized(&mut self)
        ensures
            old(self).wf() ==> final(self).wf(),
            final(self).pipeline() == old(self).pipeline(),
            final(self).parts_kept(*old(self)),
            final(self).pad_token() == old(self).pad_token(),
            final(self).pad_params() == old(self).pad_params(),
            final(self).cut_params() == old(self).cut_params(),
            final(self).specials() == old(self).specials(),
            final(self).from_added_file(),
    {
        self.added_tokens_serialized = true;
    }

    /// The parts that `new` was given are the same.
    pub open spec fn parts_kept(&self, o: Tokenizer) -> bool {
        &&& self.encoder_part() == o.encoder_part()
        &&& self.decoder_part() == o.decoder_part()
        &&& self.pretok_type() == o.pretok_type()
        &&& self.post() == o.post()
    }

    /// Set special token metadata: token texts and their ids.
    pub fn set_special_tokens(&mut self, tokens: Vec<(String, TokenId)>)
        ensures
            old(self).wf() ==> final(self).wf(),
            final(self).pipeline() == old(self).pipeline(),
            final(self).parts_kept(*old(self)),
            final(self).pad_token() == old(self).pad_token(),
            final(self).pad_params() == old(self).pad_params(),
            final(self).cut_params() == old(self).cut_params(),
            final(self).specials() == tokens@,
            final(self).from_added_file() == old(self).from_added_file(),
    {
        self.special_tokens = tokens;
    }

    /// Special tokens as pairs of a text and an id.
    pub fn special_tokens(&self) -> (r: &[(String, TokenId)])
        ensures
            r@ == self.specials(),
    {
        self.special_tokens.as_slice()
    }

    pub fn pretokenizer_type(&self) -> (r: PretokType)
        ensures
            r == self.pretok_type(),
    {
        self.pretokenizer_type
    }

    pub fn normalizer(&self) -> (r: &Normalizer)
        ensures
            *r == self.pipeline().normalizer,
    {
        &self.normalizer
    }

    pub fn post_processor(&self) -> (r: &PostProcessor)
        ensures
            *r == self.post(),
    {
        &self.post_processor
    }

    pub fn encoder_type(&self) -> (r: EncoderType)
        ensures
            r == self.encoder_part().kind(),
    {
        self.encoder.encoder_type()
    }

    pub fn decoder_type(&self) -> (r: DecoderType)
        ensures
            r == self.decoder_part().kind(),
    {
        self.decoder.decoder_type()
    }

    pub fn encoder(&self) -> (r: &Encoder)
        ensures
            *r == self.encoder_part(),
    {
        &self.encoder
    }

    pub fn decoder(&self) -> (r: &Decoder)
        ensures
            *r == self.decoder_part(),
    {
        &self.decoder
    }

    pub fn pretokenizer(&self) -> (r: Option<Pretokenizer>)
        ensures
            r == self.pipeline().pretok,
    {
        self.pretokenizer
    }

    /// Split texts by another pretokenizer; the type on record stays.
    pub fn set_pretokenizer(&mut self, pretok: Option<Pretokenizer>)
        ensures
            old(self).wf() ==> final(self).wf(),
            final(self).pipeline() == (Pipeline { pretok, ..old(self).pipeline() }),
            final(self).same_settings(*old(self)),
    {
        self.pretokenizer = pretok;
    }

    pub fn vocab_size(&self) -> (n: usize)
        requires
            self.wf() || self.decodes(),
        ensures
            n == self.pipeline().rules.vocab.len(),
    {
        proof {
            self.lemma_decodes();
        }
        self.decoder.vocab_size()
    }

    pub fn pad_token_id(&self) -> (r: Option<TokenId>)
        ensures
            r == self.pad_token(),
    {
        self.pad_token_id
    }

    pub fn padding(&self) -> (r: Option<&PaddingParams>)
        ensures
            match r {
                Some(p) => self.pad_params() == Some(*p),
                None => self.pad_params() is None,
            },
    {
        self.padding.as_ref()
    }

    pub fn truncation(&self) -> (r: Option<&TruncationParams>)
        ensures
            match r {
                Some(p) => self.cut_params() == Some(*p),
                None => self.cut_params() is None,
            },
    {
        self.truncation.as_ref()
    }

    /// Number of special tokens added for a single sequence or a pair.
    pub fn num_special_tokens_to_add(&self, is_pair: bool) -> (n: usize)
        requires
            self.wf(),
        ensures
            n == if is_pair {
                postprocessor::pair_extra(self.post().frame())
            } else {
                postprocessor::single_extra(self.post().frame())
            },
    {
        if is_pair {
            self.post_processor.num_special_tokens_pair()
        } else {
            self.post_processor.num_special_tokens_single()
        }
    }

    /// Everything but the runtime settings is the same.
    pub open spec fn runtime_only(&self, o: Tokenizer) -> bool {
        &&& self.wf() == o.wf()
        &&& self.pipeline() == o.pipeline()
        &&& self.parts_kept(o)
        &&& self.specials() == o.specials()
        &&& self.from_added_file() == o.from_added_file()
    }

    pub fn enable_padding(&mut self, params: PaddingParams) -> (r: &mut Self)
        ensures
            r.runtime_only(*old(self)),
            r.pad_params() == Some(params),
            r.cut_params() == old(self).cut_params(),
            r.pad_token() == old(self).pad_token(),
            *final(self) == *final(r),
    {
        self.padding = Some(params);
        self
    }

    pub fn enable_truncation(&mut self, params: TruncationParams) -> (r: &mut Self)
        ensures
            r.runtime_only(*old(self)),
            r.pad_params() == old(self).pad_params(),
            r.cut_params() == Some(params),
            r.pad_token() == old(self).pad_token(),
            *final(self) == *final(r),
    {
        self.truncation = Some(params);
        self
    }

    pub fn no_padding(&mut self) -> (r: &mut Self)
        ensures
            r.runtime_only(*old(self)),
            r.pad_params() is None,
            r.cut_params() == old(self).cut_params(),
            r.pad_token() == old(self).pad_token(),
            *final(self) == *final(r),
    {
        self.padding = None;
        self
    }

    pub fn no_truncation(&mut self) -> (r: &mut Self)
        ensures
            r.runtime_only(*old(self)),
            r.pad_params() == old(self).pad_params(),
            r.cut_params() is None,
            r.pad_token() == old(self).pad_token(),
            *final(self) == *final(r),
    {
        self.truncation = None;
        self
    }

    pub fn set_pad_token_id(&mut self, id: TokenId) -> (r: &mut Self)
        ensures
            r.runtime_only(*old(self)),
            r.pad_params() == old(self).pad_params(),
            r.cut_params() == old(self).cut_params(),
            r.pad_token() == Some(id),
            *final(self) == *final(r),
    {
        self.pad_token_id = Some(id);
        self
    }
}

} // verus!
