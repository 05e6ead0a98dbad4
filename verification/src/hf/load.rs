//! Tokenizers of tokenizer files.
use crate::added;
use crate::automaton;
use crate::bytes::to_vec;
use crate::decoder;
use crate::decoder::{Decoder, DecoderType};
use crate::encoder::backtracking;
use crate::encoder::backtracking::BacktrackingBytePairEncoder;
use crate::encoder::check::tokens_fit;
use crate::encoder::{Encoder, EncoderType};
use crate::hf::json;
use crate::hf::json::{absent, as_entries, as_list, as_text, get, has_type, some_of_type, Json};
use crate::hf::merges;
use crate::hf::merges::{
    are_merges_topological, detect_num_base_tokens, entries_in_order, merges_of, read_entry_id,
    VocabIndex,
};
use crate::hf::normalizer;
use crate::hf::normalizer::detect_normalizer;
use crate::hf::pretokenizer;
use crate::hf::pretokenizer::detect_pretokenizer_type;
use crate::hf::special;
use crate::hf::special::{
    detect_post_processor, extract_added_tokens, extract_pad_token_id, extract_special_tokens,
};
use crate::hf::tokens;
use crate::hf::tokens::{decode_bytelevel_token, decode_sentencepiece_token};
use crate::hf::JsonLoadError;
use crate::order;
use crate::normalizer::{cow_str, Normalizer};
use crate::postprocessor;
use crate::pretok;
use crate::pretok::PretokType;
use crate::replace;
use crate::replace::fnr;
use crate::serde::added_section;
use crate::text;
use crate::text::contains_text;
use crate::tokenizer;
use crate::tokenizer::Tokenizer;
use crate::types::TokenId;
use vstd::prelude::*;
use vstd::string::*;

verus! {

// ---- what a file holds ----

/// The vocabulary section of a file.
pub open spec fn vocab_at(data: Json) -> Option<Json> {
    json::at(json::at(Some(data), "model"@), "vocab"@)
}

/// The merges section of a file.
pub open spec fn merges_at(data: Json) -> Option<Json> {
    json::at(json::at(Some(data), "model"@), "merges"@)
}

/// The file is one of a Unigram model.
pub open spec fn is_unigram(data: Json) -> bool {
    ||| json::type_of(json::at(Some(data), "model"@)) == Some("Unigram"@)
    ||| json::list_of(vocab_at(data)) is Some && json::is_null(merges_at(data))
}

/// The file is one of a WordPiece model.
pub open spec fn is_wordpiece(data: Json) -> bool {
    let m = json::at(Some(data), "model"@);
    ||| json::type_of(m) == Some("WordPiece"@)
    ||| json::type_of(json::at(Some(data), "decoder"@)) == Some("WordPiece"@)
    ||| json::is_null(merges_at(data)) && json::text_of(
        json::at(m, "continuing_subword_prefix"@),
    ) is Some
}

/// A list under the key has an element of type ByteLevel.
pub open spec fn has_bytelevel(j: Option<Json>, key: Seq<char>) -> bool {
    json::list_of(json::at(j, key)) matches Some(v) && json::any_of_type(v, "ByteLevel"@)
}

/// The file decodes by ByteLevel.
pub open spec fn uses_bytelevel(data: Json) -> bool {
    let d = json::at(Some(data), "decoder"@);
    ||| json::type_of(d) == Some("ByteLevel"@)
    ||| has_bytelevel(d, "decoders"@)
    ||| has_bytelevel(json::at(Some(data), "pre_tokenizer"@), "pretokenizers"@)
}

/// The bytes of a token.
pub open spec fn token_bytes(bytelevel: bool, s: Seq<char>) -> Seq<u8> {
    if bytelevel {
        tokens::bytelevel_bytes(s)
    } else {
        tokens::sentencepiece_bytes(s)
    }
}

/// The entries as ids and bytes, in this order.
pub open spec fn entries_at(v: Seq<(String, Json)>, o: Seq<usize>, bytelevel: bool) -> Seq<
    (u32, Seq<u8>),
> {
    Seq::new(
        o.len(),
        |i: int| (merges::entry_id(v[o[i] as int]), token_bytes(bytelevel, v[o[i] as int].0@)),
    )
}

/// The entries as ids and bytes, in order of their ids; equal ids keep their
/// order.
pub open spec fn vocabulary(v: Seq<(String, Json)>, bytelevel: bool) -> Seq<(u32, Seq<u8>)> {
    entries_at(v, order::places(merges::entry_ids(v)), bytelevel)
}

/// Ids that number the entries are their places.
pub proof fn law_numbered_vocabulary(v: Seq<(String, Json)>, bytelevel: bool)
    requires
        merges::ids_number_entries(v),
        v.len() <= usize::MAX,
    ensures
        backtracking::ids_in_order(vocabulary(v, bytelevel)),
{
    let keys = merges::entry_ids(v);
    let some = order::law_some_order(keys, keys.len() as int);
    let o = order::places(keys);
    let e = vocabulary(v, bytelevel);
    assert forall|i: int| 0 <= i < e.len() implies (#[trigger] e[i]).0 == i by {
        order::law_numbered_places(keys, o, i);
    }
}

/// How many tokens at the start are single bytes.
pub open spec fn leading_bytes(v: Seq<Seq<u8>>, i: int) -> int
    decreases v.len() - i,
{
    if 0 <= i < v.len() && v[i].len() == 1 {
        1 + leading_bytes(v, i + 1)
    } else {
        0
    }
}

/// What the encoder of a file is built from.
pub struct Plan {
    pub entries: Seq<(u32, Seq<u8>)>,
    pub merges: Seq<(TokenId, TokenId)>,
    pub base: usize,
}

/// The file joins tokens in turn.
pub open spec fn in_order(v: Seq<(String, Json)>, m: Seq<Json>) -> bool {
    merges::topological(v, m, merges::base_count(v, m) as int)
}

/// What the encoder of a file is built from. Where merges are in turn the
/// tokens are ByteLevel texts, and the base tokens come before the first
/// merge. Else the decoder says what the tokens are, and the base tokens are
/// the single bytes at the start, 256 at least.
pub open spec fn plan(data: Json, v: Seq<(String, Json)>, m: Seq<Json>) -> Plan {
    let ids = merges::merge_ids(v, m, m.len() as int);
    if in_order(v, m) {
        Plan { entries: vocabulary(v, true), merges: ids, base: merges::base_count(v, m) }
    } else {
        let entries = vocabulary(v, uses_bytelevel(data));
        let n = leading_bytes(backtracking::bytes_of(entries), 0);
        Plan {
            entries,
            merges: ids,
            base: if n < 256 {
                256
            } else {
                n as usize
            },
        }
    }
}

/// The encoder that a file asks for.
pub open spec fn encoder_for(
    data: Json,
    v: Seq<(String, Json)>,
    m: Seq<Json>,
    wanted: EncoderType,
) -> EncoderType {
    let metaspace = {
        let id = normalizer::detected(data).0;
        id == 4 || id == 7 || id == 10 || id == 11
    };
    if in_order(v, m) {
        if wanted == EncoderType::Simple {
            EncoderType::Simple
        } else {
            EncoderType::Backtracking
        }
    } else if wanted == EncoderType::SentencePiece || metaspace {
        EncoderType::SentencePiece
    } else if uses_bytelevel(data) || wanted == EncoderType::Simple {
        EncoderType::Simple
    } else {
        EncoderType::Backtracking
    }
}

/// What is wrong with the vocabulary and the merges of a file.
pub open spec fn model_error(
    data: Json,
    v: Seq<(String, Json)>,
    m: Seq<Json>,
    wanted: EncoderType,
) -> Option<JsonLoadError> {
    let p = plan(data, v, m);
    let e = encoder_for(data, v, m, wanted);
    let t = special::added_list(data);
    let added_tokens = special::added_views(t, t.len() as int);
    if v.len() > u32::MAX {
        Some(JsonLoadError::InvalidFormat("vocab too large"))
    } else if e != EncoderType::Backtracking {
        Some(JsonLoadError::UnsupportedEncoder(e))
    } else if !backtracking::merges_within(p.entries.len(), p.merges) {
        Some(JsonLoadError::InvalidFormat("merges should join tokens of the vocab"))
    } else if !automaton::patterns_fit(backtracking::vocab_patterns(backtracking::bytes_of(p.entries))) {
        Some(JsonLoadError::InvalidFormat("vocab too large"))
    } else if added_tokens.len() > u32::MAX || !automaton::patterns_fit(
        tokenizer::raw_patterns(
            backtracking::vocab_rules(p.entries, p.merges),
            added_tokens,
            added_tokens.len() as int,
        ),
    ) {
        Some(JsonLoadError::InvalidFormat("added tokens too long"))
    } else {
        None
    }
}

/// What is wrong with a file.
pub open spec fn load_error(data: Json, wanted: EncoderType) -> Option<JsonLoadError> {
    if is_unigram(data) {
        Some(JsonLoadError::UnsupportedEncoder(EncoderType::Unigram))
    } else if is_wordpiece(data) {
        Some(JsonLoadError::UnsupportedEncoder(EncoderType::WordPiece))
    } else {
        match (json::entries_of(vocab_at(data)), json::list_of(merges_at(data))) {
            (None, _) => Some(JsonLoadError::InvalidFormat("vocab should be object")),
            (_, None) => Some(JsonLoadError::InvalidFormat("merges should be array")),
            (Some(v), Some(m)) => model_error(data, v, m, wanted),
        }
    }
}

/// The tokenizer is the one that a file describes. It can encode where the
/// splits of its tokens lead to tokens, as they do where the ids number the
/// entries.
pub open spec fn is_loaded(t: Tokenizer, data: Json, pretokenizer: PretokType) -> bool {
    let a = special::added_list(data);
    let v = json::entries_of(vocab_at(data))->0;
    let m = json::list_of(merges_at(data))->0;
    let p = plan(data, v, m);
    &&& t.pipeline().rules == backtracking::vocab_rules(p.entries, p.merges)
    &&& merges::ids_number_entries(v) ==> t.wf()
    &&& backtracking::splits_ok(t.pipeline().rules.vocab, t.pipeline().rules.splits) ==> t.wf()
    &&& t.pipeline().normalizer.wf()
    &&& t.decodes()
    &&& t.encoder_part().base_tokens() == p.base
    &&& t.decoder_part().kind() == DecoderType::ByteLevel
    &&& t.pretok_type() == pretokenizer
    &&& t.pipeline().pretok == pretok::pretokenizer_of(pretokenizer)
    &&& normalizer::is_choice(t.pipeline().normalizer, normalizer::detected(data))
    &&& t.post() == special::detected_post_processor(data)
    &&& t.pad_token() == special::detected_pad(data)
    &&& t.pad_params() is None
    &&& t.cut_params() is None
    &&& t.pipeline().added == special::added_views(a, a.len() as int)
    &&& added_section::special_views(t.specials()) == special::special_tokens(a, a.len() as int)
    &&& t.pipeline().workers == 1
    &&& !t.from_added_file()
}

// ---- reading it ----

/// Is a list with an element of type ByteLevel under the key?
fn bytelevel_under(j: Option<&Json>, key: &str) -> (r: bool)
    ensures
        r == has_bytelevel(json::value(j), key@),
{
    match as_list(get(j, key)) {
        Some(v) => some_of_type(v, "ByteLevel"),
        None => false,
    }
}

/// Check if the tokenizer uses ByteLevel decoding.
pub fn is_bytelevel_decoder(data: &Json) -> (r: bool)
    ensures
        r == uses_bytelevel(*data),
{
    let d = get(Some(data), "decoder");
    has_type(d, "ByteLevel") || bytelevel_under(d, "decoders") || bytelevel_under(
        get(Some(data), "pre_tokenizer"),
        "pretokenizers",
    )
}

/// The entries as ids and bytes, in order.
fn full_vocab(v: &[(String, Json)], order: &Vec<usize>, bytelevel: bool) -> (r: Vec<(u32, Vec<u8>)>)
    requires
        is_order(v@, order@),
    ensures
        backtracking::added_views(r@) == vocabulary(v@, bytelevel),
{
    let n: usize = v.len();
    let mut out: Vec<(u32, Vec<u8>)> = Vec::new();
    let mut i: usize = 0;
    while i < n
        invariant
            n == v@.len(),
            is_order(v@, order@),
            i <= n,
            out@.len() == i,
            forall|k: int|
                0 <= k < i ==> (#[trigger] out@[k]).0 == merges::entry_id(v@[order@[k] as int]),
            forall|k: int|
                0 <= k < i ==> (#[trigger] out@[k]).1@ == token_bytes(
                    bytelevel,
                    v@[order@[k] as int].0@,
                ),
        decreases n - i,
    {
        let s = v[order[i]].0.as_str();
        let bytes = if bytelevel {
            decode_bytelevel_token(s)
        } else {
            decode_sentencepiece_token(s)
        };
        out.push((read_entry_id(&v[order[i]]), bytes));
        i = i + 1;
    }
    assert(backtracking::added_views(out@) =~= vocabulary(v@, bytelevel));
    out
}

/// How many tokens at the start are single bytes.
fn count_leading_bytes(vocab: &Vec<(u32, Vec<u8>)>) -> (r: usize)
    ensures
        r == leading_bytes(backtracking::bytes_of(backtracking::added_views(vocab@)), 0),
{
    let ghost all = backtracking::bytes_of(backtracking::added_views(vocab@));
    let n: usize = vocab.len();
    let mut i: usize = 0;
    while i < n
        invariant
            n == vocab@.len(),
            all == backtracking::bytes_of(backtracking::added_views(vocab@)),
            i <= n,
            leading_bytes(all, 0) == i + leading_bytes(all, i as int),
        decreases n - i,
    {
        if vocab[i].1.len() != 1 {
            return i;
        }
        assert(all[i as int].len() == 1);
        i = i + 1;
    }
    i
}

/// Do the merges join entries of the vocabulary?
fn check_merges(vocab: &Vec<(u32, Vec<u8>)>, m: &Vec<(TokenId, TokenId)>) -> (r: bool)
    ensures
        r == backtracking::merges_within(vocab@.len(), m@),
{
    let mut i: usize = 0;
    while i < m.len()
        invariant
            i <= m@.len(),
            forall|k: int|
                0 <= k < i ==> (#[trigger] m@[k]).0 < vocab@.len() && m@[k].1 < vocab@.len(),
        decreases m.len() - i,
    {
        let a: usize = m[i].0 as usize;
        let b: usize = m[i].1 as usize;
        if a >= vocab.len() || b >= vocab.len() {
            assert(!(m@[i as int].0 < vocab@.len() && m@[i as int].1 < vocab@.len()));
            return false;
        }
        i = i + 1;
    }
    true
}

/// The bytes of the entries.
fn entry_vectors(vocab: &Vec<(u32, Vec<u8>)>) -> (r: Vec<Vec<u8>>)
    ensures
        backtracking::views(r@) == backtracking::bytes_of(backtracking::added_views(vocab@)),
{
    let mut out: Vec<Vec<u8>> = Vec::new();
    let mut i: usize = 0;
    while i < vocab.len()
        invariant
            i <= vocab@.len(),
            out@.len() == i,
            forall|k: int| 0 <= k < i ==> (#[trigger] out@[k])@ == vocab@[k].1@,
        decreases vocab.len() - i,
    {
        out.push(to_vec(vocab[i].1.as_slice()));
        i = i + 1;
    }
    assert(backtracking::views(out@) =~= backtracking::bytes_of(backtracking::added_views(vocab@)));
    out
}

/// Tokens that fit an automaton fit a buffer.
proof fn lemma_total_len(v: Seq<Seq<u8>>)
    ensures
        0 <= decoder::total_len(v) <= automaton::patterns_size(backtracking::vocab_patterns(v)),
    decreases v.len(),
{
    let p = backtracking::vocab_patterns(v);
    if v.len() > 0 {
        lemma_total_len(v.drop_last());
        assert(p.drop_last() =~= backtracking::vocab_patterns(v.drop_last()));
    }
}

/// Added tokens without flags are looked for in the raw text alone.
proof fn lemma_plain_added(
    r: backtracking::Rules,
    nz: Normalizer,
    v: Seq<Json>,
    t: Seq<added::AddedView>,
    n: int,
)
    requires
        t == special::added_views(v, v.len() as int),
        0 <= n <= t.len(),
    ensures
        tokenizer::norm_patterns(r, nz, t, n).len() == 0,
    decreases n,
{
    if n > 0 {
        lemma_plain_added(r, nz, v, t, n - 1);
        lemma_plain_token(v, v.len() as int, n - 1);
    }
}

proof fn lemma_plain_token(v: Seq<Json>, k: int, i: int)
    requires
        0 <= k <= v.len(),
        0 <= i < special::added_views(v, k).len(),
    ensures
        !special::added_views(v, k)[i].normalized,
    decreases k,
{
    if k > 0 {
        let before = special::added_views(v, k - 1);
        if i < before.len() {
            lemma_plain_token(v, k - 1, i);
        }
    }
}

/// The tokenizer of an encoder and a file.
fn assemble(
    data: &Json,
    vocab: Vec<(u32, Vec<u8>)>,
    m: Vec<(TokenId, TokenId)>,
    base: usize,
    pretokenizer: PretokType,
    normalizer: Normalizer,
) -> (r: Result<Tokenizer, JsonLoadError>)
    requires
        normalizer::is_choice(normalizer, normalizer::detected(*data)),
    ensures
        ({
            let entries = backtracking::added_views(vocab@);
            let v = backtracking::bytes_of(entries);
            let rules = backtracking::vocab_rules(entries, m@);
            let a = special::added_list(*data);
            let added_tokens = special::added_views(a, a.len() as int);
            match r {
                Ok(t) => {
                    &&& backtracking::merges_within(entries.len(), m@)
                    &&& automaton::patterns_fit(backtracking::vocab_patterns(v))
                    &&& added_tokens.len() <= u32::MAX
                    &&& automaton::patterns_fit(
                        tokenizer::raw_patterns(rules, added_tokens, added_tokens.len() as int),
                    )
                    &&& backtracking::splits_ok(rules.vocab, rules.splits) ==> t.wf()
                    &&& backtracking::ids_in_order(entries) ==> t.wf()
                    &&& t.decodes()
                    &&& t.pipeline().rules == rules
                    &&& t.encoder_part().base_tokens() == base
                    &&& t.decoder_part().kind() == DecoderType::ByteLevel
                    &&& t.pretok_type() == pretokenizer
                    &&& t.pipeline().pretok == pretok::pretokenizer_of(pretokenizer)
                    &&& t.pipeline().normalizer == normalizer
                    &&& t.post() == special::detected_post_processor(*data)
                    &&& t.pad_token() == special::detected_pad(*data)
                    &&& t.pad_params() is None
                    &&& t.cut_params() is None
                    &&& t.pipeline().added == added_tokens
                    &&& added_section::special_views(t.specials()) == special::special_tokens(
                        a,
                        a.len() as int,
                    )
                    &&& t.pipeline().workers == 1
                    &&& !t.from_added_file()
                },
                Err(e) => Some(e) == (if !backtracking::merges_within(entries.len(), m@) {
                    Some(JsonLoadError::InvalidFormat("merges should join tokens of the vocab"))
                } else if !automaton::patterns_fit(backtracking::vocab_patterns(v)) {
                    Some(JsonLoadError::InvalidFormat("vocab too large"))
                } else if added_tokens.len() > u32::MAX || !automaton::patterns_fit(
                    tokenizer::raw_patterns(rules, added_tokens, added_tokens.len() as int),
                ) {
                    Some(JsonLoadError::InvalidFormat("added tokens too long"))
                } else {
                    None
                }),
            }
        }),
{
    if !check_merges(&vocab, &m) {
        return Err(JsonLoadError::InvalidFormat("merges should join tokens of the vocab"));
    }
    let vectors = entry_vectors(&vocab);
    if !tokens_fit(vectors.as_slice()) {
        return Err(JsonLoadError::InvalidFormat("vocab too large"));
    }
    let ghost v = backtracking::bytes_of(backtracking::added_views(vocab@));
    let (enc, token_bytes) = BacktrackingBytePairEncoder::from_vocab_and_merges(
        vocab.as_slice(),
        m.as_slice(),
        base,
    );
    proof {
        lemma_total_len(v);
        backtracking::lemma_patterns_size(backtracking::vocab_patterns(v), 0);
        if backtracking::ids_in_order(backtracking::added_views(vocab@)) {
            backtracking::law_vocab_splits(backtracking::added_views(vocab@), m@);
        }
    }
    let decoder = Decoder::for_encoder(token_bytes.as_slice(), EncoderType::Backtracking);
    let post_processor = detect_post_processor(data);
    assert(postprocessor::frame_fits(post_processor.frame()));
    let mut t = Tokenizer::new(
        Encoder::Backtracking(enc),
        decoder,
        pretokenizer,
        normalizer,
        post_processor,
    );
    if let Some(id) = extract_pad_token_id(data) {
        t.set_pad_token_id(id);
    }
    let added_tokens = extract_added_tokens(data);
    if added_tokens.len() > u32::MAX as usize {
        return Err(JsonLoadError::InvalidFormat("added tokens too long"));
    }
    proof {
        let a = special::added_list(*data);
        let views = added::models(added_tokens@);
        lemma_plain_added(
            t.pipeline().rules,
            t.pipeline().normalizer,
            a,
            views,
            views.len() as int,
        );
        assert(tokenizer::norm_patterns(
            t.pipeline().rules,
            t.pipeline().normalizer,
            views,
            views.len() as int,
        ) =~= seq![]);
    }
    if !t.try_set_added_tokens(added_tokens.as_slice()) {
        return Err(JsonLoadError::InvalidFormat("added tokens too long"));
    }
    assert(t.pipeline().added =~= added::models(added_tokens@));
    t.set_special_tokens(extract_special_tokens(data));
    Ok(t)
}

/// A table of the entries in order of their ids.
pub open spec fn is_order(v: Seq<(String, Json)>, o: Seq<usize>) -> bool {
    &&& order::in_order(merges::entry_ids(v), o, 0, v.len() as int)
    &&& o == order::places(merges::entry_ids(v))
}

/// Load a byte-level BPE tokenizer: base tokens come before the first merge,
/// and each merge makes the next token.
pub fn load_byte_level_bpe(
    data: &Json,
    index: &VocabIndex,
    vocab: &[(String, Json)],
    order: &Vec<usize>,
    merges_arr: &[Json],
    pretokenizer_type: PretokType,
    encoder_type: EncoderType,
    normalizer: Normalizer,
) -> (r: Result<Tokenizer, JsonLoadError>)
    requires
        json::entries_of(vocab_at(*data)) == Some(vocab@),
        json::list_of(merges_at(*data)) == Some(merges_arr@),
        vocab@.len() <= u32::MAX,
        index.indexes(vocab@, vocab@.len() as int),
        is_order(vocab@, order@),
        in_order(vocab@, merges_arr@),
        normalizer::is_choice(normalizer, normalizer::detected(*data)),
    ensures
        match r {
            Ok(t) => model_error(*data, vocab@, merges_arr@, encoder_type) is None && is_loaded(
                t,
                *data,
                pretokenizer_type,
            ),
            Err(e) => model_error(*data, vocab@, merges_arr@, encoder_type) == Some(e),
        },
{
    match encoder_type {
        EncoderType::Simple => {
            return Err(JsonLoadError::UnsupportedEncoder(EncoderType::Simple));
        },
        _ => {},
    }
    let base: usize = detect_num_base_tokens(index, vocab, merges_arr);
    let entries = full_vocab(vocab, order, true);
    proof {
        if merges::ids_number_entries(vocab@) {
            law_numbered_vocabulary(vocab@, true);
        }
    }
    let ids = merges_of(index, vocab, merges_arr);
    assemble(data, entries, ids, base, pretokenizer_type, normalizer)
}

/// Load a vocab-defined BPE tokenizer: the ids are those of the vocabulary,
/// whatever the order of the merges.
pub fn load_vocab_defined_bpe(
    data: &Json,
    index: &VocabIndex,
    vocab: &[(String, Json)],
    order: &Vec<usize>,
    merges_arr: &[Json],
    pretokenizer_type: PretokType,
    encoder_type: EncoderType,
    normalizer: Normalizer,
) -> (r: Result<Tokenizer, JsonLoadError>)
    requires
        json::entries_of(vocab_at(*data)) == Some(vocab@),
        json::list_of(merges_at(*data)) == Some(merges_arr@),
        vocab@.len() <= u32::MAX,
        index.indexes(vocab@, vocab@.len() as int),
        is_order(vocab@, order@),
        !in_order(vocab@, merges_arr@),
        normalizer::is_choice(normalizer, normalizer::detected(*data)),
    ensures
        match r {
            Ok(t) => model_error(*data, vocab@, merges_arr@, encoder_type) is None && is_loaded(
                t,
                *data,
                pretokenizer_type,
            ),
            Err(e) => model_error(*data, vocab@, merges_arr@, encoder_type) == Some(e),
        },
{
    let bytelevel = is_bytelevel_decoder(data);
    let metaspace = match &normalizer {
        Normalizer::Metaspace(_) => true,
        Normalizer::MetaspaceReplace => true,
        _ => false,
    };
    let wants_sentencepiece = match encoder_type {
        EncoderType::SentencePiece => true,
        _ => false,
    };
    let wants_simple = match encoder_type {
        EncoderType::Simple => true,
        _ => false,
    };
    if wants_sentencepiece || metaspace {
        return Err(JsonLoadError::UnsupportedEncoder(EncoderType::SentencePiece));
    }
    if bytelevel || wants_simple {
        return Err(JsonLoadError::UnsupportedEncoder(EncoderType::Simple));
    }
    let entries = full_vocab(vocab, order, bytelevel);
    proof {
        if merges::ids_number_entries(vocab@) {
            law_numbered_vocabulary(vocab@, bytelevel);
        }
    }
    let n: usize = count_leading_bytes(&entries);
    let base: usize = if n < 256 {
        256
    } else {
        n
    };
    let ids = merges_of(index, vocab, merges_arr);
    assemble(data, entries, ids, base, pretokenizer_type, normalizer)
}

/// What loading the value with a pretokenizer and an encoder type results in.
pub open spec fn loads_with(
    data: Json,
    pretokenizer_type: PretokType,
    encoder_type: EncoderType,
    r: Result<Tokenizer, JsonLoadError>,
) -> bool {
    match r {
        Ok(t) => load_error(data, encoder_type) is None && is_loaded(t, data, pretokenizer_type),
        Err(e) => load_error(data, encoder_type) == Some(e),
    }
}

/// Load a tokenizer from parsed JSON with a pretokenizer and an encoder type.
pub fn load_from_json_value_with_encoder(
    data: &Json,
    pretokenizer_type: PretokType,
    encoder_type: EncoderType,
) -> (r: Result<Tokenizer, JsonLoadError>)
    ensures
        loads_with(*data, pretokenizer_type, encoder_type, r),
        r != Err::<Tokenizer, JsonLoadError>(JsonLoadError::Json),
{
    let model = get(Some(data), "model");
    let vocab_json = get(model, "vocab");
    let merges_json = get(model, "merges");
    if has_type(model, "Unigram") || (as_list(vocab_json).is_some() && absent(merges_json)) {
        return Err(JsonLoadError::UnsupportedEncoder(EncoderType::Unigram));
    }
    if has_type(model, "WordPiece") || has_type(get(Some(data), "decoder"), "WordPiece") || (absent(
        merges_json,
    ) && as_text(get(model, "continuing_subword_prefix")).is_some()) {
        return Err(JsonLoadError::UnsupportedEncoder(EncoderType::WordPiece));
    }
    let vocab = match as_entries(vocab_json) {
        Some(v) => v,
        None => return Err(JsonLoadError::InvalidFormat("vocab should be object")),
    };
    let merges_arr = match as_list(merges_json) {
        Some(v) => v,
        None => return Err(JsonLoadError::InvalidFormat("merges should be array")),
    };
    if vocab.len() > u32::MAX as usize {
        return Err(JsonLoadError::InvalidFormat("vocab too large"));
    }
    let order = entries_in_order(vocab);
    let normalizer = detect_normalizer(data);
    let index = VocabIndex::new(vocab);
    let base: usize = detect_num_base_tokens(&index, vocab, merges_arr);
    if are_merges_topological(&index, vocab, merges_arr, base) {
        load_byte_level_bpe(
            data,
            &index,
            vocab,
            &order,
            merges_arr,
            pretokenizer_type,
            encoder_type,
            normalizer,
        )
    } else {
        load_vocab_defined_bpe(
            data,
            &index,
            vocab,
            &order,
            merges_arr,
            pretokenizer_type,
            encoder_type,
            normalizer,
        )
    }
}

// ---- split patterns of an unknown kind ----

/// A pattern with a negative lookahead for (non-)whitespace.
pub open spec fn has_lookahead(pattern: Seq<char>) -> bool {
    pretokenizer::holds(pattern, "(?!\\S)"@) || pretokenizer::holds(pattern, "(?!\\s)"@)
}

/// The pattern without its lookaheads, as bytes.
pub open spec fn without_lookahead(pattern: Seq<char>) -> Seq<u8> {
    replace::replaced(
        replace::replaced(
            text::utf8(pattern),
            text::utf8("\\s+(?!\\S)"@),
            text::utf8("\\s+$"@),
        ),
        text::utf8("\\s+(?!\\s)"@),
        text::utf8("\\s+$"@),
    )
}

/// The patterns that a split pattern is matched by, each with whether its
/// last character is given back.
pub open spec fn are_fallback_patterns(v: Seq<(String, bool)>, pattern: Seq<char>) -> bool {
    if has_lookahead(pattern) {
        &&& v.len() == 3
        &&& text::utf8(v[0].0@) == without_lookahead(pattern) && !v[0].1
        &&& v[1].0@ == "\\s+\\s"@ && v[1].1
        &&& v[2].0@ == "\\s+"@ && !v[2].1
    } else {
        v.len() == 1 && v[0].0@ == pattern && !v[0].1
    }
}

/// The patterns that a split pattern is matched by, each with whether its
/// last character is given back.
pub fn fallback_patterns(pattern: &str) -> (r: Vec<(String, bool)>)
    ensures
        are_fallback_patterns(r@, pattern@),
{
    let mut out: Vec<(String, bool)> = Vec::new();
    if contains_text(pattern, "(?!\\S)") || contains_text(pattern, "(?!\\s)") {
        let a = fnr(pattern, "\\s+(?!\\S)", "\\s+$");
        let b = fnr(cow_str(&a), "\\s+(?!\\s)", "\\s+$");
        out.push((cow_str(&b).to_owned(), false));
        out.push(("\\s+\\s".to_owned(), true));
        out.push(("\\s+".to_owned(), false));
    } else {
        out.push((pattern.to_owned(), false));
    }
    out
}

/// What loading the value with an encoder type results in.
pub open spec fn loads(
    data: Json,
    encoder_type: EncoderType,
    r: Result<(Tokenizer, Vec<(String, bool)>), JsonLoadError>,
) -> bool {
    match r {
        Ok(x) => {
            let d = pretokenizer::detected(data);
            &&& load_error(data, encoder_type) is None
            &&& is_loaded(x.0, data, d.0)
            &&& if d.0 != PretokType::Absent || d.1 is None {
                x.1@.len() == 0
            } else {
                are_fallback_patterns(x.1@, d.1->0)
            }
        },
        Err(e) => load_error(data, encoder_type) == Some(e),
    }
}

/// Load a tokenizer from parsed JSON. Where the file splits texts by patterns
/// of an unknown kind and no pretokenizer is set, these come along.
pub fn from_json_value(data: &Json, encoder_type: EncoderType) -> (r: Result<
    (Tokenizer, Vec<(String, bool)>),
    JsonLoadError,
>)
    ensures
        loads(*data, encoder_type, r),
        r != Err::<(Tokenizer, Vec<(String, bool)>), JsonLoadError>(JsonLoadError::Json),
{
    let detected = detect_pretokenizer_type(data);
    let tokenizer = match load_from_json_value_with_encoder(
        data,
        detected.pretok_type,
        encoder_type,
    ) {
        Ok(t) => t,
        Err(e) => return Err(e),
    };
    let patterns: Vec<(String, bool)> = match detected.pretok_type {
        PretokType::Absent => match &detected.fallback_pattern {
            Some(p) => fallback_patterns(p.as_str()),
            None => Vec::new(),
        },
        _ => Vec::new(),
    };
    Ok((tokenizer, patterns))
}

} // verus!
