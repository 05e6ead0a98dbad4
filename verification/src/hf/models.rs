//! What the files of Unigram and WordPiece models hold.
use crate::automaton;
use crate::decoder;
use crate::decoder::Decoder;
use crate::encoder::backtracking;
use crate::encoder::unigram;
use crate::encoder::units;
use crate::encoder::unigram::{ScoredToken, UnigramEncoder};
use crate::encoder::EncoderType;
use crate::hf::json;
use crate::hf::json::{as_entries, as_list, as_number, as_text, as_word, get, Json};
use crate::hf::load;
use crate::hf::merges;
use crate::hf::merges::entries_in_order;
use crate::hf::tokens;
use crate::hf::tokens::decode_sentencepiece_token;
use crate::hf::JsonLoadError;
use crate::order;
use crate::bytes::to_vec;
use crate::text;
use crate::types::TokenId;
use vstd::prelude::*;

verus! {

// ---- Unigram ----

/// A pair of a token text and a score: the token's bytes and the score's word.
pub open spec fn scored_entry(e: Json) -> Option<(Seq<u8>, u64)> {
    match json::list_of(Some(e)) {
        Some(pair) => if pair.len() < 2 {
            None
        } else {
            match (json::text_of(Some(pair[0])), json::word_of(Some(pair[1]))) {
                (Some(s), Some(w)) => Some((tokens::sentencepiece_bytes(s), w)),
                _ => None,
            }
        },
        None => None,
    }
}

/// The pairs among the first `n` elements, each with its place as its id.
pub open spec fn scored_entries(v: Seq<Json>, n: int) -> Seq<(TokenId, Seq<u8>, u64)>
    decreases n,
{
    if n <= 0 {
        seq![]
    } else {
        match scored_entry(v[n - 1]) {
            Some((b, w)) => scored_entries(v, n - 1).push(((n - 1) as u32, b, w)),
            None => scored_entries(v, n - 1),
        }
    }
}

/// The entries, each by its bytes.
pub open spec fn scored_views(v: Seq<ScoredToken>) -> Seq<(TokenId, Seq<u8>, u64)> {
    Seq::new(v.len(), |i: int| (v[i].0, v[i].1@, v[i].2))
}

/// The unknown token that a file names by its id.
pub open spec fn unknown_id(data: Json) -> TokenId {
    match json::number_of(json::at(json::at(Some(data), "model"@), "unk_id"@)) {
        Some(n) => n as u32,
        None => 0,
    }
}

/// A pair of a token text and a score.
fn read_scored(e: &Json) -> (r: Option<(Vec<u8>, u64)>)
    ensures
        match r {
            Some((b, w)) => scored_entry(*e) == Some((b@, w)),
            None => scored_entry(*e) is None,
        },
{
    match as_list(Some(e)) {
        Some(pair) => {
            if pair.len() < 2 {
                return None;
            }
            match (as_text(Some(&pair[0])), as_word(Some(&pair[1]))) {
                (Some(s), Some(w)) => Some((decode_sentencepiece_token(s), w)),
                _ => None,
            }
        },
        None => None,
    }
}

/// The vocabulary of a Unigram file: a list of pairs of a token text and a
/// score. What is no such pair is passed over.
pub fn unigram_vocab(data: &Json) -> (r: Result<Vec<ScoredToken>, JsonLoadError>)
    ensures
        match json::list_of(load::vocab_at(*data)) {
            None => r == Err::<Vec<ScoredToken>, JsonLoadError>(
                JsonLoadError::InvalidFormat("Unigram vocab should be array"),
            ),
            Some(v) => if v.len() > u32::MAX {
                r == Err::<Vec<ScoredToken>, JsonLoadError>(
                    JsonLoadError::InvalidFormat("vocab too large"),
                )
            } else if scored_entries(v, v.len() as int).len() == 0 {
                r == Err::<Vec<ScoredToken>, JsonLoadError>(
                    JsonLoadError::InvalidFormat("Unigram vocab is empty"),
                )
            } else {
                r is Ok && scored_views(r->Ok_0@) == scored_entries(v, v.len() as int)
            },
        },
{
    let v = match as_list(get(get(Some(data), "model"), "vocab")) {
        Some(v) => v,
        None => return Err(JsonLoadError::InvalidFormat("Unigram vocab should be array")),
    };
    if v.len() > u32::MAX as usize {
        return Err(JsonLoadError::InvalidFormat("vocab too large"));
    }
    let mut out: Vec<ScoredToken> = Vec::new();
    let mut i: usize = 0;
    assert(scored_views(out@) =~= seq![]);
    while i < v.len()
        invariant
            i <= v@.len() <= u32::MAX,
            scored_views(out@) == scored_entries(v@, i as int),
        decreases v.len() - i,
    {
        let ghost before = out@;
        match read_scored(&v[i]) {
            Some((b, w)) => {
                out.push((i as u32, b, w));
                assert(scored_views(out@) =~= scored_views(before).push((i as u32, b@, w)));
            },
            None => {},
        }
        i = i + 1;
    }
    assert(scored_views(out@).len() == out@.len());
    if out.len() == 0 {
        return Err(JsonLoadError::InvalidFormat("Unigram vocab is empty"));
    }
    Ok(out)
}

/// What a Unigram file holds.
pub struct LoadedUnigram {
    pub encoder: UnigramEncoder,
    pub decoder: Decoder,
}

/// The tokens take up too much room for an automaton.
pub open spec fn too_large(v: Seq<(TokenId, Seq<u8>, u64)>) -> bool {
    !automaton::patterns_fit(Seq::new(v.len(), |i: int| (v[i].1, v[i].0)))
}

/// The bytes of the entries take up what their patterns do.
proof fn lemma_sizes(p: Seq<automaton::Pattern>, v: Seq<Seq<u8>>)
    requires
        p.len() == v.len(),
        forall|i: int| 0 <= i < v.len() ==> (#[trigger] p[i]).0 == v[i],
    ensures
        0 <= decoder::total_len(v) <= automaton::patterns_size(p),
    decreases v.len(),
{
    if v.len() > 0 {
        assert(p.last().0 == v.last());
        assert forall|i: int| 0 <= i < v.len() - 1 implies (#[trigger] p.drop_last()[i]).0
            == v.drop_last()[i] by {
            assert(p[i].0 == v[i]);
        }
        lemma_sizes(p.drop_last(), v.drop_last());
    }
}

/// Load the encoder and the decoder of a Unigram model.
pub fn load_unigram(data: &Json) -> (r: Result<LoadedUnigram, JsonLoadError>)
    ensures
        match json::list_of(load::vocab_at(*data)) {
            None => r is Err && r->Err_0 == JsonLoadError::InvalidFormat(
                "Unigram vocab should be array",
            ),
            Some(v) => {
                let e = scored_entries(v, v.len() as int);
                let p = Seq::new(e.len(), |i: int| (e[i].1, e[i].0));
                let tokens = Seq::new(e.len(), |i: int| e[i].1);
                if v.len() > u32::MAX {
                    r is Err && r->Err_0 == JsonLoadError::InvalidFormat("vocab too large")
                } else if e.len() == 0 {
                    r is Err && r->Err_0 == JsonLoadError::InvalidFormat("Unigram vocab is empty")
                } else if too_large(e) {
                    r is Err && r->Err_0 == JsonLoadError::InvalidFormat("vocab too large")
                } else {
                    &&& r is Ok
                    &&& r->Ok_0.encoder.wf()
                    &&& r->Ok_0.encoder.model().unk == unknown_id(*data)
                    &&& r->Ok_0.encoder.model().tokens == automaton::kept(p).remove(Seq::empty())
                    &&& r->Ok_0.encoder.model().short == unigram::up_to(
                        automaton::kept(p),
                        backtracking::MAX_CACHED_TOKEN_LEN as int,
                    )
                    &&& r->Ok_0.encoder.model().bytes.len() == 256
                    &&& forall|x: u8| #[trigger]
                        r->Ok_0.encoder.model().bytes[x as int] == unigram::fallback_token(p, x)
                    &&& r->Ok_0.encoder.score_words() == Seq::new(e.len(), |i: int| e[i].2)
                    &&& r->Ok_0.encoder.lengths() == Seq::new(
                        e.len(),
                        |i: int| e[i].1.len() as u16,
                    )
                    &&& r->Ok_0.encoder.splits() == units::splittable(tokens)
                    &&& r->Ok_0.decoder.wf()
                    &&& r->Ok_0.decoder.tokens() == tokens
                    &&& r->Ok_0.decoder.kind() == decoder::decoder_type_of(EncoderType::Unigram)
                }
            },
        },
{
    let vocab = match unigram_vocab(data) {
        Ok(v) => v,
        Err(e) => return Err(e),
    };
    let ghost e = scored_views(vocab@);
    let ghost p = unigram::entries(vocab@);
    assert(p =~= Seq::new(e.len(), |i: int| (e[i].1, e[i].0)));
    if !entries_fit(vocab.as_slice()) {
        return Err(JsonLoadError::InvalidFormat("vocab too large"));
    }
    let unk: TokenId = match as_number(get(get(Some(data), "model"), "unk_id")) {
        Some(n) =>
        #[verifier::truncate]
        (n as u32),
        None => 0,
    };
    let (encoder, token_bytes) = UnigramEncoder::from_vocab_with_scores(vocab.as_slice(), unk);
    proof {
        lemma_sizes(p, backtracking::views(token_bytes@));
        assert(backtracking::views(token_bytes@) =~= Seq::new(e.len(), |i: int| e[i].1));
        assert(encoder.score_words() =~= Seq::new(e.len(), |i: int| e[i].2));
        assert(encoder.lengths() =~= Seq::new(e.len(), |i: int| e[i].1.len() as u16));
    }
    let decoder = Decoder::for_encoder(token_bytes.as_slice(), EncoderType::Unigram);
    Ok(LoadedUnigram { encoder, decoder })
}

/// Do the entries fit an automaton?
fn entries_fit(vocab: &[ScoredToken]) -> (r: bool)
    ensures
        r == automaton::patterns_fit(unigram::entries(vocab@)),
{
    let ghost p = unigram::entries(vocab@);
    let mut size: usize = 0;
    let mut i: usize = 0;
    assert(p.subrange(0, 0) =~= Seq::<automaton::Pattern>::empty());
    while i < vocab.len()
        invariant
            i <= vocab@.len(),
            p == unigram::entries(vocab@),
            size == automaton::patterns_size(p.subrange(0, i as int)) < automaton::PATTERN_ROOM,
        decreases vocab.len() - i,
    {
        let n = vocab[i].1.len();
        proof {
            backtracking::lemma_patterns_size(p, i + 1);
            assert(p.subrange(0, i + 1).drop_last() =~= p.subrange(0, i as int));
        }
        if automaton::PATTERN_ROOM - size <= automaton::PATTERN_COST || n
            >= automaton::PATTERN_ROOM - size - automaton::PATTERN_COST {
            return false;
        }
        size = size + n + automaton::PATTERN_COST;
        i = i + 1;
    }
    assert(p.subrange(0, p.len() as int) =~= p);
    true
}

// ---- WordPiece ----

/// The bytes of the entries' texts, in this order.
pub open spec fn texts_in_order(v: Seq<(String, Json)>, o: Seq<usize>) -> Seq<Seq<u8>> {
    Seq::new(o.len(), |i: int| text::utf8(v[o[i] as int].0@))
}

/// The bytes of the entries' texts, in order of their ids.
pub open spec fn sorted_texts(v: Seq<(String, Json)>, t: Seq<Seq<u8>>) -> bool {
    exists|o: Seq<usize>| #[trigger]
        order::in_order(merges::entry_ids(v), o, 0, v.len() as int) && t == texts_in_order(v, o)
}

/// What a WordPiece file holds.
pub struct WordPieceModel {
    /// The bytes of the tokens, in order of their ids.
    pub tokens: Vec<Vec<u8>>,
    pub unk_token: TokenId,
    /// What a token inside a word starts with.
    pub prefix: Vec<u8>,
    pub max_input_chars_per_word: usize,
}

/// The text under a key of the model section, or another in its place.
pub open spec fn model_text(data: Json, key: Seq<char>, other: Seq<char>) -> Seq<char> {
    match json::text_of(json::at(json::at(Some(data), "model"@), key)) {
        Some(s) => s,
        None => other,
    }
}

/// The longest word that a WordPiece model takes apart.
pub open spec fn longest_word(data: Json) -> usize {
    match json::number_of(json::at(json::at(Some(data), "model"@), "max_input_chars_per_word"@)) {
        Some(n) => n as usize,
        None => 100,
    }
}

/// The unknown token that a WordPiece file names by its text.
pub open spec fn wordpiece_unknown(data: Json) -> TokenId {
    let name = model_text(data, "unk_token"@, "[UNK]"@);
    match json::number_of(json::at(load::vocab_at(data), name)) {
        Some(n) => n as u32,
        None => 0,
    }
}

/// Load what a WordPiece file holds.
pub fn load_wordpiece(data: &Json) -> (r: Result<WordPieceModel, JsonLoadError>)
    ensures
        match json::entries_of(load::vocab_at(*data)) {
            None => r is Err && r->Err_0 == JsonLoadError::InvalidFormat("vocab should be object"),
            Some(v) => {
                &&& r is Ok
                &&& sorted_texts(v, backtracking::views(r->Ok_0.tokens@))
                &&& r->Ok_0.unk_token == wordpiece_unknown(*data)
                &&& r->Ok_0.prefix@ == text::utf8(
                    model_text(*data, "continuing_subword_prefix"@, "##"@),
                )
                &&& r->Ok_0.max_input_chars_per_word == longest_word(*data)
            },
        },
{
    let model = get(Some(data), "model");
    let vocab_json = get(model, "vocab");
    let v = match as_entries(vocab_json) {
        Some(v) => v,
        None => return Err(JsonLoadError::InvalidFormat("vocab should be object")),
    };
    let name = match as_text(get(model, "unk_token")) {
        Some(s) => s,
        None => "[UNK]",
    };
    let prefix = match as_text(get(model, "continuing_subword_prefix")) {
        Some(s) => s,
        None => "##",
    };
    let longest: usize = match as_number(get(model, "max_input_chars_per_word")) {
        Some(n) =>
        #[verifier::truncate]
        (n as usize),
        None => 100,
    };
    let unk_token: TokenId = match as_number(get(vocab_json, name)) {
        Some(n) =>
        #[verifier::truncate]
        (n as u32),
        None => 0,
    };
    let order = entries_in_order(v);
    let mut out: Vec<Vec<u8>> = Vec::new();
    let mut i: usize = 0;
    while i < order.len()
        invariant
            i <= order@.len(),
            order::in_order(merges::entry_ids(v@), order@, 0, v@.len() as int),
            out@.len() == i,
            forall|k: int|
                0 <= k < i ==> (#[trigger] out@[k])@ == text::utf8(v@[order@[k] as int].0@),
        decreases order.len() - i,
    {
        out.push(to_vec(v[order[i]].0.as_str().as_bytes()));
        i = i + 1;
    }
    assert(backtracking::views(out@) =~= texts_in_order(v@, order@));
    let prefix = to_vec(prefix.as_bytes());
    assert(prefix@ == text::utf8(model_text(*data, "continuing_subword_prefix"@, "##"@)));
    assert(sorted_texts(v@, backtracking::views(out@)));
    Ok(WordPieceModel { tokens: out, unk_token, prefix, max_input_chars_per_word: longest })
}

} // verus!
