//! The tokenizer that a file describes: its model, its vocabulary and the
//! numbers of its tokens.
use crate::encoder::backtracking;
use crate::encoder::EncoderType;
use crate::hf::json;
use crate::hf::json::Json;
use crate::hf::load;
use crate::hf::merges;
use crate::hf::models;
use crate::hf::tokens;
use crate::hf::JsonLoadError;
use crate::laws::detecting;
use crate::order;
use crate::types::TokenId;
use vstd::prelude::*;

verus! {

// ---- the model ----

/// The model section of the file.
pub open spec fn model_of(data: Json) -> Option<Json> {
    json::at(Some(data), "model"@)
}

/// A file says by its type, or by what it lacks, that it holds no merges:
/// Unigram's vocabulary is a list, WordPiece has a prefix for pieces inside
/// words.
pub proof fn law_other_models_are_told(data: Json, wanted: EncoderType)
    ensures
        json::type_of(model_of(data)) == Some("Unigram"@) ==> load::load_error(data, wanted) == Some(
            JsonLoadError::UnsupportedEncoder(EncoderType::Unigram),
        ),
        json::list_of(json::at(model_of(data), "vocab"@)) is Some && json::at(
            model_of(data),
            "merges"@,
        ) is None ==> load::load_error(data, wanted) == Some(
            JsonLoadError::UnsupportedEncoder(EncoderType::Unigram),
        ),
        json::type_of(model_of(data)) == Some("WordPiece"@) && json::list_of(
            json::at(model_of(data), "vocab"@),
        ) is None ==> load::load_error(data, wanted) == Some(
            JsonLoadError::UnsupportedEncoder(EncoderType::WordPiece),
        ),
        json::type_of(model_of(data)) == Some("BPE"@) && json::type_of(
            json::at(Some(data), "decoder"@),
        ) != Some("WordPiece"@) && json::list_of(json::at(model_of(data), "merges"@)) is Some ==> {
            &&& !load::is_unigram(data)
            &&& !load::is_wordpiece(data)
            &&& json::entries_of(json::at(model_of(data), "vocab"@)) is None ==> load::load_error(
                data,
                wanted,
            ) == Some(JsonLoadError::InvalidFormat("vocab should be object"))
        },
        json::type_of(model_of(data)) == Some("BPE"@) && json::type_of(
            json::at(Some(data), "decoder"@),
        ) != Some("WordPiece"@) && json::entries_of(json::at(model_of(data), "vocab"@)) is Some
            && json::at(model_of(data), "merges"@) == Some(Json::Bool(true)) ==> load::load_error(
            data,
            wanted,
        ) == Some(JsonLoadError::InvalidFormat("merges should be array")),
{
    reveal_strlit("Unigram");
    reveal_strlit("WordPiece");
    reveal_strlit("BPE");
    assert("Unigram"@.len() == 7 && "WordPiece"@.len() == 9 && "BPE"@.len() == 3);
}

/// A file whose merges are in turn is encoded by the backtracking encoder
/// unless the simple one is asked for.
pub proof fn law_encoder_of_merges_in_turn(
    data: Json,
    v: Seq<(String, Json)>,
    m: Seq<Json>,
    wanted: EncoderType,
)
    requires
        forall|i: int|
            0 <= i < m.len() ==> #[trigger] merges::in_turn(
                v,
                m,
                merges::base_count(v, m) as int,
                i,
            ),
    ensures
        wanted == EncoderType::Simple ==> load::encoder_for(data, v, m, wanted)
            == EncoderType::Simple,
        wanted != EncoderType::Simple ==> load::encoder_for(data, v, m, wanted)
            == EncoderType::Backtracking,
{
}

/// The base tokens of a file come before the token that its first merge
/// makes; there are 256 where that is not known.
pub proof fn law_base_tokens(
    v: Seq<(String, Json)>,
    m: Seq<Json>,
    l: Seq<u8>,
    r: Seq<u8>,
    n: u64,
)
    ensures
        m.len() == 0 ==> merges::base_count(v, m) == 256,
        m.len() > 0 && merges::merge_texts(m[0]) == Some((l, r)) && merges::entry_number(v, l + r)
            == Some(n) && n <= usize::MAX ==> merges::base_count(v, m) == n,
        m.len() > 0 && merges::merge_texts(m[0]) is None ==> merges::base_count(v, m) == 256,
{
}

// ---- the vocabulary ----

/// A token of the file has the number that the file gives it, and the bytes
/// that its text stands for.
pub proof fn law_tokens_have_their_numbers(
    v: Seq<(String, Json)>,
    i: int,
    bytelevel: bool,
    pairs: Seq<(TokenId, TokenId)>,
)
    requires
        0 <= i < v.len() <= u32::MAX,
        forall|k: int|
            0 <= k < v.len() ==> (json::number_of(Some((#[trigger] v[k]).1)) matches Some(n) && n
                < v.len()),
        forall|j: int, k: int|
            0 <= j < k < v.len() ==> json::number_of(Some((#[trigger] v[j]).1)) != json::number_of(
                Some((#[trigger] v[k]).1),
            ),
    ensures
        ({
            let n = json::number_of(Some(v[i].1))->0 as int;
            let rules = backtracking::vocab_rules(load::vocabulary(v, bytelevel), pairs);
            &&& rules.vocab.len() == v.len()
            &&& bytelevel ==> rules.vocab[n] == tokens::bytelevel_bytes(v[i].0@)
            &&& !bytelevel ==> rules.vocab[n] == tokens::sentencepiece_bytes(v[i].0@)
        }),
{
    let keys = merges::entry_ids(v);
    let o = order::places(keys);
    assert forall|k: int| 0 <= k < keys.len() implies #[trigger] keys[k] < keys.len() by {
        assert(json::number_of(Some(v[k].1)) is Some);
    }
    assert forall|j: int, k: int| 0 <= j < k < keys.len() implies #[trigger] keys[j]
        != #[trigger] keys[k] by {
        assert(json::number_of(Some(v[j].1)) != json::number_of(Some(v[k].1)));
    }
    let some = order::law_some_order(keys, keys.len() as int);
    let n = json::number_of(Some(v[i].1))->0 as int;
    assert(json::number_of(Some(v[i].1)) is Some);
    assert(keys[i] == n);
    order::law_numbered_places(keys, o, n);
    let p = o[n] as int;
    if p < i {
        assert(keys[p] != keys[i]);
    } else if i < p {
        assert(keys[i] != keys[p]);
    }
    let e = load::vocabulary(v, bytelevel);
    assert(e[n] == (merges::entry_id(v[p]), load::token_bytes(bytelevel, v[p].0@)));
}

/// A file decodes by bytes where its decoder says so, alone or as one of
/// several, or where a stage of its pretokenizer does.
pub proof fn law_byte_level_files(data: Json)
    ensures
        json::type_of(json::at(Some(data), "decoder"@)) == Some("ByteLevel"@)
            ==> load::uses_bytelevel(data),
        detecting::byte_level_stages(
            data,
            json::list_of(
                json::at(json::at(Some(data), "pre_tokenizer"@), "pretokenizers"@),
            )->0,
        ) ==> load::uses_bytelevel(data),
        json::at(Some(data), "decoder"@) is None && json::at(Some(data), "pre_tokenizer"@) is None
            ==> !load::uses_bytelevel(data),
{
}

/// What a WordPiece file leaves out has a value all the same: words of a
/// hundred characters, the unknown token `[UNK]`. What it says counts.
pub proof fn law_wordpiece_settings(data: Json, n: u64)
    ensures
        json::at(model_of(data), "max_input_chars_per_word"@) is None ==> models::longest_word(data)
            == 100,
        json::number_of(json::at(model_of(data), "max_input_chars_per_word"@)) == Some(n) && n
            <= usize::MAX ==> models::longest_word(data) == n,
        json::at(model_of(data), "unk_token"@) is None && json::number_of(
            json::at(json::at(model_of(data), "vocab"@), "[UNK]"@),
        ) == Some(n) && n <= u32::MAX ==> models::wordpiece_unknown(data) == n,
        json::at(model_of(data), "continuing_subword_prefix"@) is None ==> models::model_text(
            data,
            "continuing_subword_prefix"@,
            "##"@,
        ) == "##"@,
        json::number_of(json::at(model_of(data), "unk_id"@)) == Some(n) && n <= u32::MAX
            ==> models::unknown_id(data) == n,
        json::at(model_of(data), "unk_id"@) is None ==> models::unknown_id(data) == 0,
{
}

/// Where merges are not in turn, the base tokens are the single bytes that the
/// vocabulary starts with, and no fewer than 256.
pub proof fn law_base_tokens_out_of_turn(data: Json, v: Seq<(String, Json)>, m: Seq<Json>, n: int)
    requires
        !load::in_order(v, m),
        load::leading_bytes(
            backtracking::bytes_of(load::vocabulary(v, load::uses_bytelevel(data))),
            0,
        ) == n,
        n <= usize::MAX,
    ensures
        n <= 256 ==> load::plan(data, v, m).base == 256,
        n >= 256 ==> load::plan(data, v, m).base == n,
        load::plan(data, v, m).merges == merges::merge_ids(v, m, m.len() as int),
        load::plan(data, v, m).entries == load::vocabulary(v, load::uses_bytelevel(data)),
{
}

/// Where merges are in turn, the tokens are byte-level texts, and the base
/// tokens come before the first merge.
pub proof fn law_plan_in_turn(data: Json, v: Seq<(String, Json)>, m: Seq<Json>)
    requires
        load::in_order(v, m),
    ensures
        load::plan(data, v, m).base == merges::base_count(v, m),
        load::plan(data, v, m).merges == merges::merge_ids(v, m, m.len() as int),
        load::plan(data, v, m).entries == load::vocabulary(v, true),
{
}

/// How many single bytes a vocabulary starts with.
pub proof fn law_leading_bytes(v: Seq<Seq<u8>>, k: int)
    requires
        0 <= k <= v.len(),
        forall|i: int| 0 <= i < k ==> (#[trigger] v[i]).len() == 1,
        k < v.len() ==> v[k].len() != 1,
    ensures
        load::leading_bytes(v, 0) == k,
{
    lemma_leading(v, 0, k);
}

proof fn lemma_leading(v: Seq<Seq<u8>>, i: int, k: int)
    requires
        0 <= i <= k <= v.len(),
        forall|j: int| i <= j < k ==> (#[trigger] v[j]).len() == 1,
        k < v.len() ==> v[k].len() != 1,
    ensures
        load::leading_bytes(v, i) == k - i,
    decreases k - i,
{
    if i < k {
        assert(v[i].len() == 1);
        lemma_leading(v, i + 1, k);
    }
}

// ---- merges ----

proof fn lemma_last_entry(e: Seq<(u32, Seq<u8>)>, n: int)
    requires
        0 <= n < e.len(),
        forall|k: int| n < k < e.len() ==> (#[trigger] e[k]).1 != e[n].1,
    ensures
        backtracking::last_id(e, e[n].1) == Some(e[n].0),
    decreases e.len(),
{
    if n < e.len() - 1 {
        assert(e[e.len() - 1].1 != e[n].1);
        assert forall|k: int| n < k < e.drop_last().len() implies (#[trigger] e.drop_last()[k]).1
            != e.drop_last()[n].1 by {
            assert(e.drop_last()[k] == e[k]);
        }
        lemma_last_entry(e.drop_last(), n);
    }
}

/// A merge joins its two tokens to the token with the bytes of both. That
/// token is taken apart again by the first merge that makes it, and a token
/// that no merge makes is taken apart by none.
pub proof fn law_merge_joins_bytes(
    e: Seq<(u32, Seq<u8>)>,
    merges: Seq<(TokenId, TokenId)>,
    m: (TokenId, TokenId),
    n: int,
)
    requires
        0 <= n < e.len(),
        e[n].1 == e[m.0 as int].1 + e[m.1 as int].1,
        forall|k: int| n < k < e.len() ==> (#[trigger] e[k]).1 != e[n].1,
        forall|j: int, k: int|
            0 <= j < k < e.len() ==> (#[trigger] e[j]).0 != (#[trigger] e[k]).0,
    ensures
        ({
            let r = backtracking::vocab_rules(e, merges.push(m));
            let key = backtracking::packed(m.0, m.1);
            &&& r.pairs.contains_key(key)
            &&& r.pairs[key] == e[n].0
            &&& (forall|i: int|
                0 <= i < merges.len() ==> e[(#[trigger] merges[i]).0 as int].1
                    + e[merges[i].1 as int].1 != e[n].1) ==> r.splits[n].left == m.0
                && r.splits[n].right == m.1
        }),
        (forall|i: int|
            0 <= i < merges.len() ==> e[(#[trigger] merges[i]).0 as int].1
                + e[merges[i].1 as int].1 != e[n].1) ==> backtracking::vocab_rules(
            e,
            merges,
        ).splits[n].left == e[n].0 && backtracking::vocab_rules(e, merges).splits[n].right
            == e[n].0,
{
    lemma_last_entry(e, n);
    let v = merges.push(m);
    assert(v.drop_last() =~= merges);
    assert(v.last() == m);
    assert(backtracking::made_id(e, m) == Some(e[n].0));
    if forall|i: int|
        0 <= i < merges.len() ==> e[(#[trigger] merges[i]).0 as int].1 + e[merges[i].1 as int].1
            != e[n].1 {
        lemma_no_merge(e, merges, n);
    }
}

proof fn lemma_id_has_bytes(e: Seq<(u32, Seq<u8>)>, b: Seq<u8>, n: int)
    requires
        0 <= n < e.len(),
        b != e[n].1,
        forall|j: int, k: int|
            0 <= j < k < e.len() ==> (#[trigger] e[j]).0 != (#[trigger] e[k]).0,
    ensures
        backtracking::last_id(e, b) != Some(e[n].0),
    decreases e.len(),
{
    let d = e.drop_last();
    if e.last().1 == b {
        assert(e[e.len() - 1].0 != e[n].0);
    } else {
        lemma_found_has_bytes(e, b);
        if backtracking::last_id(e, b) == Some(e[n].0) {
            let k = choose|k: int|
                0 <= k < e.len() && (#[trigger] e[k]).1 == b && Some(e[k].0)
                    == backtracking::last_id(e, b);
            if k < n {
                assert(e[k].0 != e[n].0);
            } else if n < k {
                assert(e[n].0 != e[k].0);
            }
        }
    }
}

proof fn lemma_found_has_bytes(e: Seq<(u32, Seq<u8>)>, b: Seq<u8>)
    ensures
        backtracking::last_id(e, b) is Some ==> exists|k: int|
            0 <= k < e.len() && (#[trigger] e[k]).1 == b && Some(e[k].0) == backtracking::last_id(
                e,
                b,
            ),
    decreases e.len(),
{
    if e.len() > 0 {
        if e.last().1 == b {
            assert(e[e.len() - 1].1 == b);
        } else {
            lemma_found_has_bytes(e.drop_last(), b);
            if backtracking::last_id(e, b) is Some {
                let d = e.drop_last();
                let k = choose|k: int|
                    0 <= k < d.len() && (#[trigger] d[k]).1 == b && Some(d[k].0)
                        == backtracking::last_id(d, b);
                assert(e[k] == d[k]);
            }
        }
    }
}

proof fn lemma_no_merge(e: Seq<(u32, Seq<u8>)>, merges: Seq<(TokenId, TokenId)>, n: int)
    requires
        0 <= n < e.len(),
        forall|j: int, k: int|
            0 <= j < k < e.len() ==> (#[trigger] e[j]).0 != (#[trigger] e[k]).0,
        forall|i: int|
            0 <= i < merges.len() ==> e[(#[trigger] merges[i]).0 as int].1
                + e[merges[i].1 as int].1 != e[n].1,
    ensures
        backtracking::first_merge(e, merges, e[n].0) is None,
    decreases merges.len(),
{
    if merges.len() > 0 {
        let d = merges.drop_last();
        assert forall|i: int| 0 <= i < d.len() implies e[(#[trigger] d[i]).0 as int].1
            + e[d[i].1 as int].1 != e[n].1 by {
            assert(d[i] == merges[i]);
        }
        lemma_no_merge(e, d, n);
        let l = merges[merges.len() - 1];
        assert(e[l.0 as int].1 + e[l.1 as int].1 != e[n].1);
        lemma_id_has_bytes(e, e[l.0 as int].1 + e[l.1 as int].1, n);
    }
}

} // verus!
