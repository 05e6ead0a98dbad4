//! Checking tokenizers whose parts were not built together.
use crate::added;
use crate::added::copy_all;
use crate::automaton;
use crate::bytes::to_vec;
use crate::decoder::Decoder;
use crate::encoder::backtracking;
use crate::encoder::Encoder;
use crate::postprocessor;
use crate::postprocessor::PostProcessor;
use crate::tokenizer;
use crate::tokenizer::model::Pipeline;
use crate::tokenizer::Tokenizer;
use crate::types::TokenId;
use vstd::prelude::*;

verus! {

/// The tokens of a decoder, as byte vectors.
fn tokens_of(decoder: &Decoder) -> (r: Vec<Vec<u8>>)
    requires
        decoder.wf(),
        decoder.tokens().len() <= u32::MAX,
    ensures
        backtracking::views(r@) == decoder.tokens(),
{
    let n: usize = decoder.vocab_size();
    let mut out: Vec<Vec<u8>> = Vec::new();
    let mut i: usize = 0;
    while i < n
        invariant
            decoder.wf(),
            n == decoder.tokens().len() <= u32::MAX,
            i <= n,
            out@.len() == i,
            forall|k: int| 0 <= k < i ==> (#[trigger] out@[k])@ == decoder.tokens()[k],
        decreases n - i,
    {
        out.push(to_vec(decoder.token_to_bytes(i as TokenId)));
        i = i + 1;
    }
    assert(backtracking::views(out@) =~= decoder.tokens());
    out
}

/// Are there few enough special tokens to be counted?
fn frame_is_small(p: &PostProcessor) -> (r: bool)
    ensures
        r == postprocessor::frame_fits(p.frame()),
{
    match p {
        PostProcessor::Template {
            single_prefix,
            single_suffix,
            pair_a_prefix,
            pair_a_suffix,
            pair_b_prefix,
            pair_b_suffix,
        } => {
            let n: u128 = single_prefix.len() as u128 + single_suffix.len() as u128
                + pair_a_prefix.len() as u128 + pair_a_suffix.len() as u128
                + pair_b_prefix.len() as u128 + pair_b_suffix.len() as u128;
            n <= u32::MAX as u128
        },
        _ => true,
    }
}

impl Tokenizer {
    /// The rules of the encoder, for the vocabulary of the decoder.
    pub open spec fn rules_decoded(&self) -> backtracking::Rules {
        backtracking::Rules {
            vocab: self.decoder_part().tokens(),
            splits: self.pipeline().rules.splits,
            pairs: self.pipeline().rules.pairs,
        }
    }

    /// The tables of the encoder are those of the decoder's vocabulary, and
    /// the special tokens and the added tokens are not too many.
    pub open spec fn in_order(&self) -> bool {
        let vocab = self.decoder_part().tokens();
        let p = Pipeline { rules: self.rules_decoded(), ..self.pipeline() };
        &&& vocab.len() <= u32::MAX
        &&& backtracking::splits_ok(vocab, self.pipeline().rules.splits)
        &&& backtracking::tables_built(
            vocab,
            self.encoder_part().automaton(),
            self.encoder_part().prefixes(),
        )
        &&& postprocessor::frame_fits(self.post().frame())
        &&& self.pipeline().added.len() <= u32::MAX
        &&& self.pipeline().added.len() == 0 || tokenizer::added_have_room(
            p,
            self.pipeline().added,
        )
    }

    /// What was built together is in order.
    proof fn lemma_in_order(&self)
        requires
            self.wf(),
        ensures
            self.in_order(),
    {
        match self.encoder {
            Encoder::Backtracking(e) => e.lemma_parts_fit(),
        }
        assert(self.rules_decoded() == self.pipeline().rules);
    }

    /// The tokenizer, if its parts fit each other: a file that is not known to
    /// be a saved one can hold tables that do not belong to its vocabulary.
    pub fn checked(self) -> (r: Option<Self>)
        requires
            self.pipeline().normalizer.wf(),
            self.decoder_part().wf(),
        ensures
            r matches Some(t) ==> {
                &&& t.wf()
                &&& t.pipeline().rules == self.rules_decoded()
                &&& t.pipeline().normalizer == self.pipeline().normalizer
                &&& t.pipeline().pretok == self.pipeline().pretok
                &&& t.pipeline().added == self.pipeline().added
                &&& t.pipeline().workers == 1
                &&& t.decoder_part() == self.decoder_part()
                &&& t.pretok_type() == self.pretok_type()
                &&& t.post() == self.post()
                &&& t.pad_token() == self.pad_token()
                &&& t.pad_params() == self.pad_params()
                &&& t.cut_params() == self.cut_params()
                &&& t.specials() == self.specials()
                &&& t.from_added_file() == self.from_added_file()
            },
            r is Some <==> self.in_order(),
            self.wf() ==> r is Some,
    {
        let n: usize = self.decoder.vocab_size();
        proof {
            if self.wf() {
                self.lemma_in_order();
            }
            backtracking::lemma_patterns_size(
                backtracking::vocab_patterns(self.decoder_part().tokens()),
                0,
            );
        }
        if n > u32::MAX as usize || !frame_is_small(&self.post_processor) {
            return None;
        }
        let token_bytes = tokens_of(&self.decoder);
        let encoder = match self.encoder {
            Encoder::Backtracking(e) => match e.checked(token_bytes.as_slice()) {
                Some(e) => Encoder::Backtracking(e),
                None => return None,
            },
        };
        let added_tokens = copy_all(self.added_tokens_raw.as_slice());
        if added_tokens.len() > u32::MAX as usize {
            return None;
        }
        let mut t = Tokenizer {
            encoder,
            decoder: self.decoder,
            pretokenizer: self.pretokenizer,
            pretokenizer_type: self.pretokenizer_type,
            normalizer: self.normalizer,
            post_processor: self.post_processor,
            pad_token_id: self.pad_token_id,
            padding: self.padding,
            truncation: self.truncation,
            raw_added_matcher: None,
            norm_added_matcher: None,
            special_tokens: self.special_tokens,
            added_tokens_raw: Vec::new(),
            added_tokens_serialized: self.added_tokens_serialized,
            workers: 1,
        };
        assert(t.pipeline().added =~= seq![]);
        assert(t.wf());
        if !t.try_set_added_tokens(added_tokens.as_slice()) {
            return None;
        }
        assert(t.pipeline().added =~= self.pipeline().added);
        Some(t)
    }
}

} // verus!
