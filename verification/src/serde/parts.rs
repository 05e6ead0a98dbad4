//! What saved files hold, whatever encoder they are for.
use crate::added;
use crate::added::AddedTokenSpec;
use crate::automaton;
use crate::bytes;
use crate::decoder;
use crate::decoder::{Decoder, DecoderType};
use crate::encoder::EncoderType;
use crate::maps;
use crate::normalizer::Normalizer;
use crate::postprocessor::PostProcessor;
use crate::serde::added_section;
use crate::serde::added_section::deserialize_added_tokens;
use crate::serde::codec;
use crate::serde::codec::{deserialize_merges, deserialize_prefix_match, deserialize_splits};
use crate::serde::configs;
use crate::serde::configs::{
    deserialize_unigram_config, deserialize_wordpiece_config, UnigramConfig, WordPieceConfig,
};
use crate::serde::frame;
use crate::serde::frame::Header;
use crate::serde::lookups;
use crate::serde::lookups::{build_token_lookups, fix_byte_fallback_collisions, Lookups};
use crate::serde::tkz;
use crate::serde::tkz::{read_shared, Shared};
use crate::serde::SerdeError;
use crate::types::{Split, TokenId};
use vstd::prelude::*;

verus! {

/// What a file holds of its encoder.
pub enum ModelParts {
    Backtracking {
        splits: Vec<Split>,
        matcher: daggrs::DoubleArrayAhoCorasick,
        next_prefix_match: Vec<TokenId>,
    },
    Simple { lookups: Lookups, merges: Vec<(TokenId, TokenId, TokenId)> },
    WordPiece { config: WordPieceConfig, matcher: daggrs::DoubleArrayAhoCorasick },
    SentencePiece { lookups: Lookups, merges: Vec<(TokenId, TokenId, TokenId)> },
    Unigram { config: UnigramConfig, matcher: daggrs::DoubleArrayAhoCorasick },
}

/// What a file holds.
pub struct FileParts {
    pub header: Header,
    pub normalizer: Normalizer,
    pub post_processor: PostProcessor,
    pub decoder: Decoder,
    pub model: ModelParts,
    pub added_tokens: Vec<AddedTokenSpec>,
    pub special_tokens: Vec<(String, TokenId)>,
}

/// The tokens of a file.
pub open spec fn tokens_in(d: Seq<u8>) -> Seq<Seq<u8>> {
    let n = frame::word(d, 6) as int;
    decoder::tokens_of(
        codec::vocab_data(frame::section(d, 0), n),
        codec::vocab_starts(frame::section(d, 0), n),
    )
}

/// What is wrong with a section of merges.
pub open spec fn merges_error(d: Seq<u8>) -> Option<SerdeError> {
    if d.len() % 12 != 0 {
        Some(
            SerdeError::InvalidData("merge data size not aligned (expected 12 bytes per merge)"),
        )
    } else {
        None
    }
}

/// What is wrong with a section that holds an automaton.
pub open spec fn automaton_error(d: Seq<u8>) -> Option<SerdeError> {
    if !automaton::matcher_readable(d) {
        Some(SerdeError::InvalidData("failed to deserialize DAAC"))
    } else {
        None
    }
}

/// One thing that is wrong, or else another.
pub open spec fn or_else(a: Option<SerdeError>, b: Option<SerdeError>) -> Option<SerdeError> {
    match a {
        Some(e) => Some(e),
        None => b,
    }
}

/// What is wrong with what a file holds of its encoder. A window of ids has to
/// have room where collisions of fallback bytes are looked for.
pub open spec fn model_error(d: Seq<u8>) -> Option<SerdeError> {
    let kind = frame::word(d, 2);
    let m = frame::section(d, 1);
    if kind == 0 {
        tkz::tables_error(d)
    } else if kind == 1 {
        merges_error(m)
    } else if kind == 2 {
        or_else(configs::wordpiece_error(m), automaton_error(frame::section(d, 2)))
    } else if kind == 3 {
        if frame::word(d, 6) > u32::MAX - lookups::FALLBACK_CLUSTER_WINDOW {
            Some(SerdeError::InvalidData("vocab too large"))
        } else {
            merges_error(m)
        }
    } else {
        or_else(
            configs::unigram_error(m, frame::word(d, 1)),
            automaton_error(frame::section(d, 2)),
        )
    }
}

/// What is wrong with a file, whatever encoder it is for.
pub open spec fn parts_error(d: Seq<u8>) -> Option<SerdeError> {
    or_else(tkz::opening_error(d), or_else(model_error(d), tkz::added_error(d)))
}

/// The lookups are those of the tokens of a file, before collisions are
/// mended.
pub open spec fn are_lookups(l: Lookups, vocab: Seq<Seq<u8>>) -> bool {
    &&& l.byte_lut@.len() == 256
    &&& forall|x: u8|
        #[trigger] l.byte_lut@[x as int] == lookups::first_or_none(
            lookups::tokens_of_byte(vocab, vocab.len() as int, x),
        )
    &&& lookups::caches(maps::bytes_map(l.token_cache), vocab)
    &&& has_tables(l, vocab)
}

/// The lengths and the tokens of each byte are those of the tokens.
pub open spec fn has_tables(l: Lookups, vocab: Seq<Seq<u8>>) -> bool {
    &&& l.byte_tokens@.len() == 256
    &&& forall|x: u8|
        (#[trigger] l.byte_tokens@[x as int])@ == lookups::tokens_of_byte(
            vocab,
            vocab.len() as int,
            x,
        )
    &&& l.token_lengths@.len() == vocab.len()
    &&& forall|i: int|
        0 <= i < vocab.len() ==> #[trigger] l.token_lengths@[i] == vocab[i].len() as u16
}

/// The lookups are those of the tokens of a file, with the collisions mended
/// that the merges tell of.
pub open spec fn are_mended(
    l: Lookups,
    vocab: Seq<Seq<u8>>,
    merges: Seq<(TokenId, TokenId, TokenId)>,
) -> bool {
    &&& has_tables(l, vocab)
    &&& exists|plain: Lookups| #[trigger]
        are_lookups(plain, vocab) && {
            let ids = lookups::id_views(plain.byte_tokens@);
            &&& l.byte_lut@.len() == 256
            &&& forall|x: int|
                0 <= x < 256 ==> #[trigger] l.byte_lut@[x] == lookups::mended(
                    merges,
                    ids,
                    plain.byte_lut@,
                    x,
                )
            &&& maps::bytes_map(l.token_cache) == lookups::mended_cache(
                maps::bytes_map(plain.token_cache),
                merges,
                ids,
                plain.byte_lut@,
                256,
            )
        }
}

/// The parts of the encoder are those of a file.
pub open spec fn is_model(d: Seq<u8>, m: ModelParts) -> bool {
    let s = frame::section(d, 1);
    let kind = frame::word(d, 2);
    match m {
        ModelParts::Backtracking { splits, matcher, next_prefix_match } => {
            &&& kind == 0
            &&& splits@ == codec::splits_in(s)
            &&& next_prefix_match@ == codec::words_at(
                frame::section(d, 3),
                0,
                frame::section(d, 3).len() as int / 4,
            )
        },
        ModelParts::Simple { lookups, merges } => {
            &&& kind == 1
            &&& merges@ == codec::merges_in(s)
            &&& are_lookups(lookups, tokens_in(d))
        },
        ModelParts::WordPiece { config, matcher } => {
            let n = bytes::u32_at(s, 4) as int;
            &&& kind == 2
            &&& config.unk_token == bytes::u32_at(s, 0)
            &&& config.continuation_prefix@ == s.subrange(8, 8 + n)
            &&& config.max_input_chars_per_word == if s.len() >= 12 + n {
                bytes::u32_at(s, 8 + n)
            } else {
                configs::DEFAULT_MAX_INPUT_CHARS
            }
        },
        ModelParts::SentencePiece { lookups, merges } => {
            &&& kind == 3
            &&& merges@ == codec::merges_in(s)
            &&& are_mended(lookups, tokens_in(d), merges@)
        },
        ModelParts::Unigram { config, matcher } => {
            let n = bytes::u32_at(s, 0) as int;
            let w = configs::words_per_score(frame::word(d, 1)) * n;
            &&& kind == 4
            &&& config.unk_token == bytes::u32_at(s, 4)
            &&& config.byte_tokens@ == codec::words_at(s, 8, 256)
            &&& config.score_words@ == codec::words_at(s, 1032, w)
            &&& config.token_lengths@ == configs::halves_at(s, 1032 + 4 * w, n)
        },
    }
}

/// The parts are those of a file.
pub open spec fn are_parts(d: Seq<u8>, p: FileParts) -> bool {
    &&& frame::is_header(d, p.header)
    &&& tkz::is_normalizer(d, p.normalizer)
    &&& tkz::is_post(d, p.post_processor)
    &&& p.decoder.wf()
    &&& p.decoder.tokens() == tokens_in(d)
    &&& p.decoder.kind() == decoder::decoder_type_of(p.header.encoder)
    &&& is_model(d, p.model)
    &&& added::models(p.added_tokens@) == added_section::tokens_of(tkz::added_in(d))
    &&& added_section::special_views(p.special_tokens@) == added_section::specials_of(
        tkz::added_in(d),
    )
}

/// Read the automaton of a file.
fn read_automaton(data: &[u8]) -> (r: Result<daggrs::DoubleArrayAhoCorasick, SerdeError>)
    ensures
        match r {
            Ok(_) => automaton_error(data@) is None,
            Err(e) => automaton_error(data@) == Some(e),
        },
{
    match automaton::read_matcher(data) {
        Some(m) => Ok(m),
        None => Err(SerdeError::InvalidData("failed to deserialize DAAC")),
    }
}

/// Tokens of a byte are places of tokens.
proof fn lemma_tokens_of_byte(vocab: Seq<Seq<u8>>, n: int, x: u8)
    requires
        0 <= n <= vocab.len() <= u32::MAX,
    ensures
        forall|j: int|
            0 <= j < lookups::tokens_of_byte(vocab, n, x).len() ==> #[trigger]
                lookups::tokens_of_byte(vocab, n, x)[j] < n,
    decreases n,
{
    if n > 0 {
        lemma_tokens_of_byte(vocab, n - 1, x);
        let before = lookups::tokens_of_byte(vocab, n - 1, x);
        let all = lookups::tokens_of_byte(vocab, n, x);
        assert forall|j: int| 0 <= j < all.len() implies #[trigger] all[j] < n by {
            if j < before.len() {
                assert(all[j] == before[j]);
            }
        }
    }
}

/// Read what a file holds of its encoder.
fn read_model(data: &[u8], x: &Shared) -> (r: Result<ModelParts, SerdeError>)
    requires
        tkz::opening_error(data@) is None,
        frame::is_header(data@, x.header),
        x.sections@.len() == 7,
        forall|k: int| 0 <= k < 7 ==> (#[trigger] x.sections@[k])@ == frame::section(data@, k),
        x.offsets@ == codec::vocab_starts(
            frame::section(data@, 0),
            frame::word(data@, 6) as int,
        ),
        x.buffer@ == codec::vocab_data(frame::section(data@, 0), frame::word(data@, 6) as int),
        decoder::offsets_fit(x.offsets@, x.buffer@.len() as int),
    ensures
        match r {
            Ok(m) => model_error(data@) is None && is_model(data@, m),
            Err(e) => model_error(data@) == Some(e),
        },
{
    let n: usize = x.header.vocab_size as usize;
    let ghost vocab = tokens_in(data@);
    assert(x.offsets@.len() == n + 1);
    match x.header.encoder {
        EncoderType::Backtracking => {
            let splits = match deserialize_splits(x.sections[1]) {
                Ok(v) => v,
                Err(e) => return Err(e),
            };
            let matcher = match read_automaton(x.sections[2]) {
                Ok(m) => m,
                Err(e) => return Err(e),
            };
            let next_prefix_match = match deserialize_prefix_match(x.sections[3]) {
                Ok(v) => v,
                Err(e) => return Err(e),
            };
            Ok(ModelParts::Backtracking { splits, matcher, next_prefix_match })
        },
        EncoderType::Simple => {
            let lookups = build_token_lookups(x.offsets.as_slice(), x.buffer.as_slice(), n);
            let merges = match deserialize_merges(x.sections[1]) {
                Ok(v) => v,
                Err(e) => return Err(e),
            };
            Ok(ModelParts::Simple { lookups, merges })
        },
        EncoderType::WordPiece => {
            let config = match deserialize_wordpiece_config(x.sections[1]) {
                Ok(c) => c,
                Err(e) => return Err(e),
            };
            let matcher = match read_automaton(x.sections[2]) {
                Ok(m) => m,
                Err(e) => return Err(e),
            };
            Ok(ModelParts::WordPiece { config, matcher })
        },
        EncoderType::SentencePiece => {
            if x.header.vocab_size > u32::MAX - lookups::FALLBACK_CLUSTER_WINDOW {
                return Err(SerdeError::InvalidData("vocab too large"));
            }
            let plain = build_token_lookups(x.offsets.as_slice(), x.buffer.as_slice(), n);
            let merges = match deserialize_merges(x.sections[1]) {
                Ok(v) => v,
                Err(e) => return Err(e),
            };
            let ghost before = plain;
            proof {
                assert(are_lookups(before, vocab));
                let ids = lookups::id_views(before.byte_tokens@);
                assert forall|b: int, j: int|
                    0 <= b < ids.len() && 0 <= j < ids[b].len() implies #[trigger] ids[b][j]
                    + lookups::FALLBACK_CLUSTER_WINDOW <= u32::MAX by {
                    assert(before.byte_tokens@[(b as u8) as int]@ == lookups::tokens_of_byte(
                        vocab,
                        vocab.len() as int,
                        b as u8,
                    ));
                    lemma_tokens_of_byte(vocab, vocab.len() as int, b as u8);
                }
            }
            let Lookups { mut byte_lut, mut token_cache, token_lengths, byte_tokens } = plain;
            fix_byte_fallback_collisions(
                &mut byte_lut,
                &mut token_cache,
                merges.as_slice(),
                byte_tokens.as_slice(),
            );
            let lookups = Lookups { byte_lut, token_cache, token_lengths, byte_tokens };
            assert(are_lookups(before, vocab));
            Ok(ModelParts::SentencePiece { lookups, merges })
        },
        EncoderType::Unigram => {
            let config = match deserialize_unigram_config(x.sections[1], x.header.version) {
                Ok(c) => c,
                Err(e) => return Err(e),
            };
            let matcher = match read_automaton(x.sections[2]) {
                Ok(m) => m,
                Err(e) => return Err(e),
            };
            Ok(ModelParts::Unigram { config, matcher })
        },
    }
}

/// Read what a saved file holds, whatever encoder it is for.
pub fn read_parts(data: &[u8]) -> (r: Result<FileParts, SerdeError>)
    ensures
        match r {
            Ok(p) => parts_error(data@) is None && are_parts(data@, p),
            Err(e) => parts_error(data@) == Some(e),
        },
{
    let x = match read_shared(data) {
        Ok(x) => x,
        Err(e) => return Err(e),
    };
    let model = match read_model(data, &x) {
        Ok(m) => m,
        Err(e) => return Err(e),
    };
    let Shared { header, sections, normalizer, post_processor, offsets, buffer } = x;
    let mut added_tokens: Vec<AddedTokenSpec> = Vec::new();
    let mut special_tokens: Vec<(String, TokenId)> = Vec::new();
    proof {
        assert(added::models(added_tokens@) =~= added_section::tokens_of(seq![]));
        assert(added_section::special_views(special_tokens@) =~= added_section::specials_of(
            seq![],
        ));
    }
    if header.version >= 13 {
        match deserialize_added_tokens(sections[6]) {
            Ok((tokens, specials)) => {
                added_tokens = tokens;
                special_tokens = specials;
            },
            Err(e) => return Err(e),
        }
    }
    let decoder = Decoder::from_parts(
        buffer,
        offsets,
        DecoderType::from_encoder_type(header.encoder),
    );
    Ok(
        FileParts {
            header,
            normalizer,
            post_processor,
            decoder,
            model,
            added_tokens,
            special_tokens,
        },
    )
}

} // verus!
