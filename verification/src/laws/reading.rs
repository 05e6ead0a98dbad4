//! What is read out of a tokenizer file: token texts, special tokens, merges
//! and the normalizer.
use crate::hf::json;
use crate::hf::json::Json;
use crate::hf::merges;
use crate::hf::models;
use crate::hf::normalizer as hf_normalizer;
use crate::hf::special;
use crate::hf::tokens;
use crate::normalizer::{MetaspacePrepend, Normalizer};
use crate::postprocessor::PostProcessor;
use crate::text;
use crate::types::TokenId;
use vstd::prelude::*;

verus! {

// ---- byte-level tokens ----

/// The byte has a character of its own in byte-level tokens.
pub open spec fn shown(b: u8) -> bool {
    0x21 <= b <= 0x7e || 0xa1 <= b <= 0xac || 0xae <= b
}

/// The character that a byte is written as: its own, or, for the `n`th of the
/// bytes that have none, the character U+0100 + `n`.
pub open spec fn written(b: u8) -> char {
    if shown(b) {
        b as char
    } else if b <= 0x20 {
        (0x100 + b) as char
    } else if b == 0xad {
        '\u{143}'
    } else {
        (0x121 + (b - 0x7f)) as char
    }
}

/// The bytes that have no character of their own are written in their order,
/// one after another from U+0100 on.
pub proof fn law_hidden_bytes_in_order(b: u8)
    ensures
        !shown(b) ==> 0x100 <= written(b) as u32 <= 0x143,
        b < 0xff && !shown(b) && !shown((b + 1) as u8) ==> written((b + 1) as u8) as u32 == written(
            b,
        ) as u32 + 1,
        written(0x00) as u32 == 0x100,
        written(0x20) == '\u{120}',
        written(0x7f) as u32 == written(0x20) as u32 + 1,
        written(0xad) as u32 == written(0xa0) as u32 + 1,
{
}

/// Each byte is written as one character, and that character is read as the byte.
pub proof fn law_written_byte_is_read(b: u8)
    ensures
        tokens::bytelevel_char(written(b)) == seq![b],
{
    assert(tokens::bytelevel_char(written(b)) =~= seq![b]);
}

/// Byte-level tokens are read character by character.
pub proof fn law_bytelevel_is_piecewise(a: Seq<char>, b: Seq<char>)
    ensures
        tokens::bytelevel_bytes(a + b) == tokens::bytelevel_bytes(a) + tokens::bytelevel_bytes(b),
    decreases b.len(),
{
    if b.len() == 0 {
        assert(a + b =~= a);
        assert(tokens::bytelevel_bytes(a) + tokens::bytelevel_bytes(b) =~= tokens::bytelevel_bytes(
            a,
        ));
    } else {
        law_bytelevel_is_piecewise(a, b.drop_last());
        assert((a + b).drop_last() =~= a + b.drop_last());
        assert((a + b).last() == b.last());
        assert(tokens::bytelevel_bytes(a + b) =~= tokens::bytelevel_bytes(a)
            + tokens::bytelevel_bytes(b));
    }
}

/// Whatever bytes are written as a byte-level token are read back.
pub proof fn law_written_bytes_are_read(v: Seq<u8>)
    ensures
        tokens::bytelevel_bytes(v.map_values(|b: u8| written(b))) == v,
    decreases v.len(),
{
    let f = |b: u8| written(b);
    let m = v.map_values(f);
    if v.len() == 0 {
        assert(m =~= Seq::empty());
        assert(tokens::bytelevel_bytes(m) =~= v);
    } else {
        law_written_bytes_are_read(v.drop_last());
        assert(m.drop_last() =~= v.drop_last().map_values(f));
        assert(m.last() == written(v.last()));
        law_written_byte_is_read(v.last());
        assert(tokens::bytelevel_bytes(m) =~= v);
    }
}

/// A character that no byte is written as stands for its own UTF-8 bytes.
pub proof fn law_other_characters_are_kept(c: char)
    requires
        c as u32 >= 0x144,
    ensures
        tokens::bytelevel_bytes(seq![c]) == text::utf8(seq![c]),
{
    assert(seq![c].drop_last() =~= Seq::<char>::empty());
    assert(tokens::bytelevel_bytes(Seq::<char>::empty()) =~= Seq::<u8>::empty());
    assert(tokens::bytelevel_bytes(seq![c]) =~= text::utf8(seq![c]));
}

// ---- SentencePiece tokens ----

/// The bytes of `<0x`, two characters and `>`.
pub open spec fn byte_name(a: u8, b: u8) -> Seq<u8> {
    seq![0x3cu8, 0x30u8, 0x78u8, a, b, 0x3eu8]
}

/// A hexadecimal digit of this value, in either case.
pub open spec fn is_hex(d: u8, x: int) -> bool {
    ||| 0 <= x <= 9 && d == 0x30 + x
    ||| 10 <= x <= 15 && (d == 0x41 + (x - 10) || d == 0x61 + (x - 10))
}

/// `<0xHL>` names the byte 16 · H + L; no other text names a byte.
pub proof fn law_byte_names(v: Seq<u8>, a: u8, b: u8, x: int, y: int)
    ensures
        is_hex(a, x) && is_hex(b, y) ==> tokens::fallback_byte(byte_name(a, b)) == Some(
            (16 * x + y) as u8,
        ),
        (forall|c: u8, d: u8| v != #[trigger] byte_name(c, d)) ==> tokens::fallback_byte(v) is None,
        tokens::fallback_byte(byte_name(a, b)) is Some ==> (exists|m: int, n: int|
            #[trigger] is_hex(a, m) && #[trigger] is_hex(b, n)),
{
    if tokens::fallback_byte(v) is Some {
        assert(v =~= byte_name(v[3], v[4]));
    }
    if tokens::fallback_byte(byte_name(a, b)) is Some {
        let m = tokens::hex_digit(a)->0 as int;
        let n = tokens::hex_digit(b)->0 as int;
        assert(is_hex(a, m) && is_hex(b, n));
    }
}

/// A token that names a byte is that byte; every other token is its text.
pub proof fn law_sentencepiece_tokens(s: Seq<char>)
    ensures
        tokens::fallback_byte(text::utf8(s)) is None ==> tokens::sentencepiece_bytes(s)
            == text::utf8(s),
        tokens::fallback_byte(text::utf8(s)) matches Some(b) ==> tokens::sentencepiece_bytes(s)
            == seq![b],
{
}

// ---- merges ----

/// A merge is written as two texts with a space between them, or as a list of
/// the two.
pub proof fn law_merge_is_two_texts(l: Seq<u8>, r: Seq<u8>, m: Json)
    requires
        !l.contains(0x20u8),
        !r.contains(0x20u8),
    ensures
        merges::two_parts(l + seq![0x20u8] + r) == Some((l, r)),
        merges::two_parts(l) is None,
        m matches Json::Text(s) ==> (text::utf8(s@) == l + seq![0x20u8] + r ==> merges::merge_texts(
            m,
        ) == Some((l, r))),
        m matches Json::List(v) ==> (v@.len() == 2 && merges::bytes_at(v@[0]) == Some(l)
            && merges::bytes_at(v@[1]) == Some(r) ==> merges::merge_texts(m) == Some((l, r))),
{
    let b = l + seq![0x20u8] + r;
    lemma_space(b, 0, l.len() as int);
    lemma_space(b, l.len() + 1int, b.len() as int);
    lemma_space(l, 0, l.len() as int);
    assert(b.subrange(0, l.len() as int) =~= l);
    assert(b.subrange(l.len() + 1int, b.len() as int) =~= r);
}

proof fn lemma_space(b: Seq<u8>, i: int, k: int)
    requires
        0 <= i <= k <= b.len(),
        forall|j: int| i <= j < k ==> b[j] != 0x20,
        k < b.len() ==> b[k] == 0x20,
    ensures
        merges::space_from(b, i) == k,
    decreases k - i,
{
    if i < k {
        lemma_space(b, i + 1, k);
    }
}

/// The merges keep their order, and each is the pair of the numbers of its two
/// texts in the vocabulary; one with an unknown text is left out.
pub proof fn law_merges_in_order(v: Seq<(String, Json)>, a: Seq<Json>, b: Seq<Json>, m: Json)
    ensures
        merges::merge_ids(v, a + b, (a + b).len() as int) == merges::merge_ids(
            v,
            a,
            a.len() as int,
        ) + merges::merge_ids(v, b, b.len() as int),
        merges::merge_texts(m) matches Some((l, r)) ==> (merges::entry_number(v, l) matches Some(
            x,
        ) ==> (merges::entry_number(v, r) matches Some(y) ==> merges::merge_ids(v, seq![m], 1)
            == seq![(x as u32, y as u32)])),
        merges::merge_texts(m) is None ==> merges::merge_ids(v, seq![m], 1).len() == 0,
    decreases b.len(),
{
    assert(merges::merge_ids(v, seq![m], 0) =~= Seq::empty());
    lemma_merge_ids(v, a, b, b.len() as int);
    reveal_with_fuel(merges::merge_ids, 2);
    if let Some((l, r)) = merges::merge_texts(m) {
        if let Some(x) = merges::entry_number(v, l) {
            if let Some(y) = merges::entry_number(v, r) {
                assert(merges::merge_ids(v, seq![m], 1) =~= seq![(x as u32, y as u32)]);
            }
        }
    }
}

proof fn lemma_merge_ids(v: Seq<(String, Json)>, a: Seq<Json>, b: Seq<Json>, n: int)
    requires
        0 <= n <= b.len(),
    ensures
        merges::merge_ids(v, a + b, a.len() + n) == merges::merge_ids(v, a, a.len() as int)
            + merges::merge_ids(v, b, n),
    decreases n,
{
    if n == 0 {
        lemma_merge_ids_front(v, a, b, a.len() as int);
        assert(merges::merge_ids(v, a, a.len() as int) + merges::merge_ids(v, b, 0)
            =~= merges::merge_ids(v, a, a.len() as int));
    } else {
        lemma_merge_ids(v, a, b, n - 1);
        assert((a + b)[a.len() + n - 1] == b[n - 1]);
        assert(merges::merge_ids(v, a + b, a.len() + n) =~= merges::merge_ids(
            v,
            a,
            a.len() as int,
        ) + merges::merge_ids(v, b, n));
    }
}

proof fn lemma_merge_ids_front(v: Seq<(String, Json)>, a: Seq<Json>, b: Seq<Json>, n: int)
    requires
        0 <= n <= a.len(),
    ensures
        merges::merge_ids(v, a + b, n) == merges::merge_ids(v, a, n),
    decreases n,
{
    if n > 0 {
        lemma_merge_ids_front(v, a, b, n - 1);
        assert((a + b)[n - 1] == a[n - 1]);
    }
}

/// The number of a text in the vocabulary is that of its last entry.
pub proof fn law_last_entry_numbers(v: Seq<(String, Json)>, i: int, n: Option<u64>, w: u64)
    requires
        0 <= i < v.len(),
        v[i].1 == Json::Number(n, w),
        forall|k: int| i < k < v.len() ==> (#[trigger] v[k]).0@ != v[i].0@,
    ensures
        merges::entry_number(v, text::utf8(v[i].0@)) == n,
{
    lemma_entry(v, v.len() as int, i);
}

proof fn lemma_entry(v: Seq<(String, Json)>, n: int, i: int)
    requires
        0 <= i < n <= v.len(),
        forall|k: int| i < k < n ==> (#[trigger] v[k]).0@ != v[i].0@,
    ensures
        merges::entry_index(v, n, text::utf8(v[i].0@)) == Some(i),
    decreases n,
{
    if i < n - 1 {
        assert(v[n - 1].0@ != v[i].0@);
        if text::utf8(v[n - 1].0@) == text::utf8(v[i].0@) {
            text::lemma_utf8_injective(v[n - 1].0@, v[i].0@);
        }
        lemma_entry(v, n - 1, i);
    }
}

// ---- special tokens ----

/// The added token with this text and number.
pub open spec fn names_token(t: Json, s: Seq<char>, id: u32) -> bool {
    &&& json::text_of(json::at(Some(t), "content"@)) == Some(s)
    &&& json::number_of(json::at(Some(t), "id"@)) == Some(id as u64)
}

/// A special token has the number of the first added token with its text; of
/// the vocabulary where no added token has it.
pub proof fn law_special_ids(data: Json, v: Seq<Json>, k: int, s: Seq<char>, id: u32)
    requires
        json::list_of(json::at(Some(data), "added_tokens"@)) == Some(v),
    ensures
        0 <= k < v.len() && names_token(v[k], s, id) && (forall|i: int|
            0 <= i < k ==> json::text_of(json::at(Some(#[trigger] v[i]), "content"@)) != Some(s))
            ==> special::special_id(data, s) == Some(id),
        (forall|i: int|
            0 <= i < v.len() ==> json::text_of(json::at(Some(#[trigger] v[i]), "content"@)) != Some(
                s,
            )) && json::number_of(
            json::at(json::at(json::at(Some(data), "model"@), "vocab"@), s),
        ) == Some(id as u64) ==> special::special_id(data, s) == Some(id),
{
    if 0 <= k < v.len() && names_token(v[k], s, id) && (forall|i: int|
        0 <= i < k ==> json::text_of(json::at(Some(#[trigger] v[i]), "content"@)) != Some(s)) {
        lemma_first_content(v, s, 0, k);
    }
    if forall|i: int|
        0 <= i < v.len() ==> json::text_of(json::at(Some(#[trigger] v[i]), "content"@)) != Some(
            s,
        ) {
        lemma_first_content(v, s, 0, v.len() as int);
    }
}

proof fn lemma_first_content(v: Seq<Json>, s: Seq<char>, i: int, k: int)
    requires
        0 <= i <= k <= v.len(),
        forall|j: int|
            i <= j < k ==> json::text_of(json::at(Some(#[trigger] v[j]), "content"@)) != Some(s),
        k < v.len() ==> json::text_of(json::at(Some(v[k]), "content"@)) == Some(s),
    ensures
        special::first_with_content(v, s, i) == if k < v.len() {
            Some(v[k])
        } else {
            None::<Json>
        },
    decreases k - i,
{
    if i < k {
        lemma_first_content(v, s, i + 1, k);
    }
}

/// An item of a template that is this special token.
pub open spec fn is_special_item(item: Json, name: Seq<char>) -> bool {
    json::text_of(json::at(json::at(Some(item), "SpecialToken"@), "id"@)) == Some(name)
}

proof fn lemma_names()
    ensures
        "[CLS]"@ != "[SEP]"@,
        "[CLS]"@ != "<s>"@,
        "[SEP]"@ != "<s>"@,
        "[CLS]"@ != "<bos>"@,
        "[SEP]"@ != "<bos>"@,
        "[CLS]"@ != "<|begin_of_text|>"@,
        "[SEP]"@ != "<|begin_of_text|>"@,
{
    reveal_strlit("[CLS]");
    reveal_strlit("[SEP]");
    reveal_strlit("<s>");
    reveal_strlit("<bos>");
    reveal_strlit("<|begin_of_text|>");
    assert("[CLS]"@[1] == 'C' && "[SEP]"@[1] == 'S');
    assert("<s>"@[0] == '<' && "<bos>"@[0] == '<' && "<|begin_of_text|>"@[0] == '<' && "[CLS]"@[0]
        == '[' && "[SEP]"@[0] == '[');
}

proof fn lemma_template(data: Json, v: Seq<Json>, n: int)
    requires
        0 <= n <= v.len(),
    ensures
        ({
            let t = special::template_ids(data, v, n);
            &&& (exists|i: int| 0 <= i < n && is_special_item(#[trigger] v[i], "[CLS]"@)) ==> t.cls
                == special::special_id(data, "[CLS]"@)
            &&& (exists|i: int| 0 <= i < n && is_special_item(#[trigger] v[i], "[SEP]"@)) ==> t.sep
                == special::special_id(data, "[SEP]"@)
            &&& !(exists|i: int| 0 <= i < n && is_special_item(#[trigger] v[i], "[CLS]"@)) ==> t.cls
                is None
            &&& !(exists|i: int| 0 <= i < n && is_special_item(#[trigger] v[i], "[SEP]"@)) ==> t.sep
                is None
        }),
    decreases n,
{
    if n > 0 {
        lemma_names();
        lemma_template(data, v, n - 1);
        assert(is_special_item(v[n - 1], "[CLS]"@) <==> special::special_name(v[n - 1]) == Some(
            "[CLS]"@,
        ));
        assert(is_special_item(v[n - 1], "[SEP]"@) <==> special::special_name(v[n - 1]) == Some(
            "[SEP]"@,
        ));
    }
}

/// A template with `[CLS]` and `[SEP]` asks for BERT's post-processor, with
/// the numbers of the two tokens.
pub proof fn law_bert_template(
    data: Json,
    v: Seq<Json>,
    i: int,
    j: int,
    cls_token: TokenId,
    sep_token: TokenId,
)
    requires
        0 <= i < v.len(),
        is_special_item(v[i], "[CLS]"@),
        0 <= j < v.len(),
        is_special_item(v[j], "[SEP]"@),
        special::special_id(data, "[CLS]"@) == Some(cls_token),
        special::special_id(data, "[SEP]"@) == Some(sep_token),
    ensures
        special::template_processor(data, v) == (PostProcessor::Bert { cls_token, sep_token }),
{
    lemma_template(data, v, v.len() as int);
}

/// A template with one token that starts texts, and neither `[CLS]` nor
/// `[SEP]`, asks for that token in front.
pub proof fn law_prefix_template(data: Json, v: Seq<Json>, i: int, s: Seq<char>, bos_token: TokenId)
    requires
        0 <= i < v.len(),
        is_special_item(v[i], s),
        s == "<s>"@ || s == "<bos>"@ || s == "<|begin_of_text|>"@,
        forall|k: int, r: Seq<char>|
            0 <= k < v.len() && #[trigger] is_special_item(v[k], r) ==> r == s,
        special::special_id(data, s) == Some(bos_token),
    ensures
        special::template_processor(data, v) == (PostProcessor::Prefix { bos_token }),
{
    lemma_names();
    lemma_template(data, v, v.len() as int);
    assert forall|k: int| 0 <= k < v.len() implies !is_special_item(#[trigger] v[k], "[CLS]"@)
        && !is_special_item(v[k], "[SEP]"@) by {}
    lemma_bos(data, v, v.len() as int, i, s);
}

proof fn lemma_bos(data: Json, v: Seq<Json>, n: int, i: int, s: Seq<char>)
    requires
        0 <= i < n <= v.len(),
        is_special_item(v[i], s),
        s == "<s>"@ || s == "<bos>"@ || s == "<|begin_of_text|>"@,
        forall|k: int, r: Seq<char>|
            0 <= k < v.len() && #[trigger] is_special_item(v[k], r) ==> r == s,
    ensures
        special::template_ids(data, v, n).bos == special::special_id(data, s),
    decreases n,
{
    lemma_names();
    if let Some(r) = special::special_name(v[n - 1]) {
        assert(is_special_item(v[n - 1], r));
    } else {
        assert(i < n - 1);
    }
    if i < n - 1 {
        lemma_bos(data, v, n - 1, i, s);
    }
}

/// A template without special tokens asks for none.
pub proof fn law_empty_template(data: Json, v: Seq<Json>)
    requires
        forall|k: int, r: Seq<char>| 0 <= k < v.len() ==> !#[trigger] is_special_item(v[k], r),
    ensures
        special::template_processor(data, v) == PostProcessor::Absent,
{
    lemma_no_template(data, v, v.len() as int);
}

proof fn lemma_no_template(data: Json, v: Seq<Json>, n: int)
    requires
        0 <= n <= v.len(),
        forall|k: int, r: Seq<char>| 0 <= k < v.len() ==> !#[trigger] is_special_item(v[k], r),
    ensures
        special::template_ids(data, v, n).cls is None,
        special::template_ids(data, v, n).sep is None,
        special::template_ids(data, v, n).bos is None,
    decreases n,
{
    if n > 0 {
        lemma_no_template(data, v, n - 1);
        if let Some(r) = special::special_name(v[n - 1]) {
            assert(is_special_item(v[n - 1], r));
        }
    }
}

/// The template of a file is that of its post-processor, or of the first one
/// in a sequence.
pub proof fn law_file_templates(data: Json, v: Seq<Json>, k: int, t: Seq<Json>)
    requires
        0 <= k < v.len(),
        json::type_of(json::at(Some(data), "post_processor"@)) == Some("Sequence"@),
        json::list_of(json::at(json::at(Some(data), "post_processor"@), "processors"@)) == Some(v),
        json::type_of(Some(v[k])) == Some("TemplateProcessing"@),
        json::list_of(json::at(Some(v[k]), "single"@)) == Some(t),
        forall|i: int|
            0 <= i < k ==> json::type_of(Some(#[trigger] v[i])) != Some("TemplateProcessing"@),
    ensures
        special::detected_post_processor(data) == special::template_processor(data, t),
{
    lemma_first_template(v, 0, k, t);
}

proof fn lemma_first_template(v: Seq<Json>, i: int, k: int, t: Seq<Json>)
    requires
        0 <= i <= k < v.len(),
        json::type_of(Some(v[k])) == Some("TemplateProcessing"@),
        json::list_of(json::at(Some(v[k]), "single"@)) == Some(t),
        forall|j: int|
            i <= j < k ==> json::type_of(Some(#[trigger] v[j])) != Some("TemplateProcessing"@),
    ensures
        special::first_template(v, i) == Some(t),
    decreases k - i,
{
    if i < k {
        lemma_first_template(v, i + 1, k, t);
    }
}

/// A file with one template post-processor has its template; one with any
/// other post-processor asks for no special tokens.
pub proof fn law_single_template(data: Json, t: Seq<Json>)
    ensures
        json::type_of(json::at(Some(data), "post_processor"@)) == Some("TemplateProcessing"@)
            && json::list_of(json::at(json::at(Some(data), "post_processor"@), "single"@)) == Some(
            t,
        ) ==> special::detected_post_processor(data) == special::template_processor(data, t),
        json::type_of(json::at(Some(data), "post_processor"@)) is None
            ==> special::detected_post_processor(data) == PostProcessor::Absent,
{
    reveal_strlit("TemplateProcessing");
    reveal_strlit("Sequence");
    assert("TemplateProcessing"@.len() == 18 && "Sequence"@.len() == 8);
}

/// The pad token is the one of the padding settings; else the first added
/// token with the name of one.
pub proof fn law_pad_tokens(data: Json, v: Seq<Json>, k: int, s: Seq<char>, id: u32)
    requires
        json::list_of(json::at(Some(data), "added_tokens"@)) == Some(v),
    ensures
        json::number_of(json::at(json::at(Some(data), "padding"@), "pad_id"@)) == Some(id as u64)
            ==> special::detected_pad(data) == Some(id),
        json::number_of(json::at(json::at(Some(data), "padding"@), "pad_id"@)) is None && 0 <= k
            < v.len() && names_token(v[k], s, id) && (s == "[PAD]"@ || s == "<pad>"@ || s
            == "<|pad|>"@) && (forall|i: int, r: Seq<char>|
            0 <= i < k && #[trigger] content_is(v[i], r) ==> r != "[PAD]"@ && r != "<pad>"@ && r
                != "<|pad|>"@) ==> special::detected_pad(data) == Some(id),
{
    if 0 <= k < v.len() && names_token(v[k], s, id) && (s == "[PAD]"@ || s == "<pad>"@ || s
        == "<|pad|>"@) && (forall|i: int, r: Seq<char>|
        0 <= i < k && #[trigger] content_is(v[i], r) ==> r != "[PAD]"@ && r != "<pad>"@ && r
            != "<|pad|>"@) {
        lemma_first_pad(v, 0, k);
    }
}

/// The text of the added token.
pub open spec fn content_is(t: Json, s: Seq<char>) -> bool {
    json::text_of(json::at(Some(t), "content"@)) == Some(s)
}

proof fn lemma_first_pad(v: Seq<Json>, i: int, k: int)
    requires
        0 <= i <= k < v.len(),
        special::content_of(v[k]) matches Some(s) && special::is_pad(s),
        forall|j: int, r: Seq<char>|
            0 <= j < k && #[trigger] content_is(v[j], r) ==> r != "[PAD]"@ && r != "<pad>"@ && r
                != "<|pad|>"@,
    ensures
        special::first_pad(v, i) == Some(v[k]),
    decreases k - i,
{
    if i < k {
        if let Some(r) = special::content_of(v[i]) {
            assert(content_is(v[i], r));
        }
        lemma_first_pad(v, i + 1, k);
    }
}

/// The special tokens of a file are the added tokens that it marks as such,
/// in their order.
pub proof fn law_special_tokens_of_a_file(v: Seq<Json>, t: Json, s: Seq<char>, id: u32)
    ensures
        names_token(t, s, id) && json::bool_of(json::at(Some(t), "special"@)) == Some(true)
            ==> special::special_tokens(v.push(t), v.len() + 1int) == special::special_tokens(
            v,
            v.len() as int,
        ).push((s, id)),
        json::bool_of(json::at(Some(t), "special"@)) != Some(true) ==> special::special_tokens(
            v.push(t),
            v.len() + 1int,
        ) == special::special_tokens(v, v.len() as int),
{
    lemma_specials_front(v, t, v.len() as int);
}

proof fn lemma_specials_front(v: Seq<Json>, t: Json, n: int)
    requires
        0 <= n <= v.len(),
    ensures
        special::special_tokens(v.push(t), n) == special::special_tokens(v, n),
        special::added_views(v.push(t), n) == special::added_views(v, n),
    decreases n,
{
    if n > 0 {
        lemma_specials_front(v, t, n - 1);
    }
}

/// The added tokens of a file that take more than one byte are looked for in
/// texts by their bytes, in their order.
pub proof fn law_added_tokens_of_a_file(v: Seq<Json>, t: Json, s: Seq<char>, id: u32)
    requires
        names_token(t, s, id),
    ensures
        text::utf8(s).len() > 1 ==> ({
            let r = special::added_views(v.push(t), v.len() + 1int);
            &&& r.drop_last() == special::added_views(v, v.len() as int)
            &&& r.len() > 0
            &&& r.last().id == id
            &&& r.last().bytes == text::utf8(s)
        }),
        text::utf8(s).len() <= 1 ==> special::added_views(v.push(t), v.len() + 1int)
            == special::added_views(v, v.len() as int),
{
    lemma_specials_front(v, t, v.len() as int);
    if text::utf8(s).len() > 1 {
        assert(special::added_views(v.push(t), v.len() + 1int).drop_last() =~= special::added_views(
            v,
            v.len() as int,
        ));
    }
}

// ---- models ----

/// The entries of a Unigram vocabulary keep their order and their places, and
/// each is its token's bytes with its score.
pub proof fn law_scored_entries(v: Seq<Json>, e: Json, pair: Seq<Json>, s: Seq<char>, w: u64)
    requires
        v.len() < u32::MAX,
        json::list_of(Some(e)) == Some(pair),
        pair.len() == 2,
        json::text_of(Some(pair[0])) == Some(s),
        json::word_of(Some(pair[1])) == Some(w),
    ensures
        models::scored_entries(v.push(e), v.len() + 1int) == models::scored_entries(
            v,
            v.len() as int,
        ).push((v.len() as u32, tokens::sentencepiece_bytes(s), w)),
{
    lemma_scored_front(v, e, v.len() as int);
}

proof fn lemma_scored_front(v: Seq<Json>, e: Json, n: int)
    requires
        0 <= n <= v.len(),
    ensures
        models::scored_entries(v.push(e), n) == models::scored_entries(v, n),
    decreases n,
{
    if n > 0 {
        lemma_scored_front(v, e, n - 1);
    }
}

// ---- the normalizer ----

/// The normalizer of the file is of this type.
pub open spec fn normalizer_is(data: Json, n: Json, name: Seq<char>) -> bool {
    &&& json::at(Some(data), "normalizer"@) == Some(n)
    &&& json::type_of(Some(n)) == Some(name)
}

/// BERT's normalizer is uncased where the file says `lowercase`, and cased
/// else; NFC is NFC.
pub proof fn law_plain_normalizers(data: Json, n: Json, r: Normalizer)
    requires
        hf_normalizer::is_choice(r, hf_normalizer::detected(data)),
    ensures
        normalizer_is(data, n, "BertNormalizer"@) && json::bool_of(
            json::at(Some(n), "lowercase"@),
        ) == Some(true) ==> r == Normalizer::BertUncased,
        normalizer_is(data, n, "BertNormalizer"@) && json::bool_of(
            json::at(Some(n), "lowercase"@),
        ) != Some(true) ==> r == Normalizer::BertCased,
        normalizer_is(data, n, "NFC"@) ==> r == Normalizer::Nfc,
{
    lemma_normalizer_names();
    if let Json::Object(_) = n {
    } else {
        assert(json::at(Some(n), "type"@) is None);
    }
}

proof fn lemma_normalizer_names()
    ensures
        "BertNormalizer"@ != "Precompiled"@,
        "NFC"@ != "Precompiled"@,
        "NFC"@ != "BertNormalizer"@,
        "Replace"@ != "Precompiled"@,
        "Replace"@ != "BertNormalizer"@,
        "Replace"@ != "NFC"@,
        "Replace"@ != "Sequence"@,
        "Replace"@ != "Lowercase"@,
        "Lowercase"@ != "Precompiled"@,
        "Lowercase"@ != "BertNormalizer"@,
        "Lowercase"@ != "NFC"@,
        "Lowercase"@ != "Sequence"@,
{
    reveal_strlit("BertNormalizer");
    reveal_strlit("Precompiled");
    reveal_strlit("NFC");
    reveal_strlit("Replace");
    reveal_strlit("Lowercase");
    reveal_strlit("Sequence");
    assert("BertNormalizer"@.len() == 14 && "Precompiled"@.len() == 11 && "NFC"@.len() == 3
        && "Replace"@.len() == 7 && "Lowercase"@.len() == 9 && "Sequence"@.len() == 8);
}

/// A pretokenizer stage of this type stands in the file, alone or in a sequence.
pub open spec fn has_stage(data: Json, name: Seq<char>) -> bool {
    let p = json::at(Some(data), "pre_tokenizer"@);
    json::type_of(p) == Some(name) || exists|i: int|
        #![trigger json::list_of(json::at(p, "pretokenizers"@))->0[i]]
        {
            &&& json::list_of(json::at(p, "pretokenizers"@)) is Some
            &&& 0 <= i < json::list_of(json::at(p, "pretokenizers"@))->0.len()
            &&& json::type_of(Some(json::list_of(json::at(p, "pretokenizers"@))->0[i])) == Some(
                name,
            )
        }
}

/// A file without a normalizer gets one for visible spaces where its
/// pretokenizer makes them, and none else.
pub proof fn law_missing_normalizer(data: Json, r: Normalizer)
    requires
        hf_normalizer::is_choice(r, hf_normalizer::detected(data)),
        json::at(Some(data), "normalizer"@) is None || json::at(Some(data), "normalizer"@) == Some(
            Json::Null,
        ),
    ensures
        has_stage(data, "Metaspace"@) ==> r == Normalizer::Metaspace(
            MetaspacePrepend::IfNotSpaceLed,
        ),
        !has_stage(data, "Metaspace"@) ==> r == Normalizer::Absent,
{
    let p = json::at(Some(data), "pre_tokenizer"@);
    assert(hf_normalizer::uses_pretokenizer(data, "Metaspace"@) <==> has_stage(
        data,
        "Metaspace"@,
    )) by {
        if let Some(v) = json::list_of(json::at(p, "pretokenizers"@)) {
            if json::any_of_type(v, "Metaspace"@) {
                let i = choose|i: int|
                    0 <= i < v.len() && json::type_of(Some(#[trigger] v[i])) == Some("Metaspace"@);
                assert(json::list_of(json::at(p, "pretokenizers"@))->0[i] == v[i]);
            }
        }
    }
}

/// A `Replace` of spaces by `▁` makes spaces visible and puts none in front.
pub proof fn law_replace_normalizer(data: Json, n: Json, r: Normalizer)
    requires
        hf_normalizer::is_choice(r, hf_normalizer::detected(data)),
        normalizer_is(data, n, "Replace"@),
        json::text_of(json::at(json::at(Some(n), "pattern"@), "String"@)) == Some(" "@),
        json::text_of(json::at(Some(n), "content"@)) == Some("\u{2581}"@),
    ensures
        r == Normalizer::MetaspaceReplace,
{
    lemma_normalizer_names();
    if let Json::Object(_) = n {
    } else {
        assert(json::at(Some(n), "type"@) is None);
    }
}

/// Lower case alone is BERT's, and SentencePiece's where the pretokenizer
/// splits at whitespace and makes spaces visible.
pub proof fn law_lowercase_normalizer(data: Json, n: Json, r: Normalizer)
    requires
        hf_normalizer::is_choice(r, hf_normalizer::detected(data)),
        normalizer_is(data, n, "Lowercase"@),
    ensures
        has_stage(data, "Metaspace"@) && has_stage(data, "WhitespaceSplit"@) ==> r
            == Normalizer::SentencePieceLowercase,
        !(has_stage(data, "Metaspace"@) && has_stage(data, "WhitespaceSplit"@)) ==> r
            == Normalizer::BertUncased,
{
    lemma_normalizer_names();
    lemma_stage(data, "Metaspace"@);
    lemma_stage(data, "WhitespaceSplit"@);
    if let Json::Object(_) = n {
    } else {
        assert(json::at(Some(n), "type"@) is None);
    }
}

proof fn lemma_stage(data: Json, name: Seq<char>)
    ensures
        hf_normalizer::uses_pretokenizer(data, name) <==> has_stage(data, name),
{
    let p = json::at(Some(data), "pre_tokenizer"@);
    if let Some(v) = json::list_of(json::at(p, "pretokenizers"@)) {
        if json::any_of_type(v, name) {
            let i = choose|i: int|
                0 <= i < v.len() && json::type_of(Some(#[trigger] v[i])) == Some(name);
            assert(json::list_of(json::at(p, "pretokenizers"@))->0[i] == v[i]);
        }
    }
}

/// A sequence without a charsmap that puts `▁` in front and makes `▁` of
/// spaces is the normalizer for visible spaces.
pub proof fn law_prepend_and_replace(
    data: Json,
    n: Json,
    v: Seq<Json>,
    i: int,
    j: int,
    r: Normalizer,
)
    requires
        hf_normalizer::is_choice(r, hf_normalizer::detected(data)),
        normalizer_is(data, n, "Sequence"@),
        json::list_of(json::at(Some(n), "normalizers"@)) == Some(v),
        forall|k: int| 0 <= k < v.len() ==> json::type_of(Some(#[trigger] v[k])) != Some(
            "Precompiled"@,
        ),
        0 <= i < v.len(),
        json::type_of(Some(v[i])) == Some("Prepend"@),
        json::text_of(json::at(Some(v[i]), "prepend"@)) == Some("\u{2581}"@),
        0 <= j < v.len(),
        json::type_of(Some(v[j])) == Some("Replace"@),
        json::text_of(json::at(json::at(Some(v[j]), "pattern"@), "String"@)) == Some(" "@),
        json::text_of(json::at(Some(v[j]), "content"@)) == Some("\u{2581}"@),
    ensures
        r == Normalizer::Metaspace(MetaspacePrepend::IfNotSpaceLed),
{
    lemma_normalizer_names();
    lemma_sequence_name();
    assert(hf_normalizer::prepends(v[i]));
    assert(hf_normalizer::replaces(v[j]));
    if let Json::Object(_) = n {
    } else {
        assert(json::at(Some(n), "type"@) is None);
    }
}

proof fn lemma_sequence_name()
    ensures
        "Sequence"@ != "Precompiled"@,
        "Sequence"@ != "BertNormalizer"@,
        "Sequence"@ != "NFC"@,
{
    reveal_strlit("BertNormalizer");
    reveal_strlit("Precompiled");
    reveal_strlit("NFC");
    reveal_strlit("Sequence");
    assert("BertNormalizer"@.len() == 14 && "Precompiled"@.len() == 11 && "NFC"@.len() == 3
        && "Sequence"@.len() == 8);
}

/// Of a sequence with neither a charsmap nor `▁` in front, the first
/// normalizer that is known by itself counts.
pub proof fn law_first_known_normalizer(data: Json, n: Json, v: Seq<Json>, k: int, r: Normalizer)
    requires
        hf_normalizer::is_choice(r, hf_normalizer::detected(data)),
        normalizer_is(data, n, "Sequence"@),
        json::list_of(json::at(Some(n), "normalizers"@)) == Some(v),
        forall|i: int|
            0 <= i < v.len() ==> json::type_of(Some(#[trigger] v[i])) != Some("Precompiled"@)
                && json::type_of(Some(v[i])) != Some("Prepend"@),
        0 <= k < v.len(),
        forall|i: int|
            0 <= i < k ==> json::type_of(Some(#[trigger] v[i])) != Some("NFC"@) && json::type_of(
                Some(v[i]),
            ) != Some("BertNormalizer"@),
    ensures
        json::type_of(Some(v[k])) == Some("NFC"@) ==> r == Normalizer::Nfc,
        json::type_of(Some(v[k])) == Some("BertNormalizer"@) && json::bool_of(
            json::at(Some(v[k]), "lowercase"@),
        ) == Some(true) ==> r == Normalizer::BertUncased,
{
    lemma_normalizer_names();
    lemma_sequence_name();
    if json::type_of(Some(v[k])) == Some("NFC"@) || json::type_of(Some(v[k])) == Some(
        "BertNormalizer"@,
    ) {
        lemma_first_known(v, 0, k);
    }
    if let Json::Object(_) = n {
    } else {
        assert(json::at(Some(n), "type"@) is None);
    }
}

proof fn lemma_first_known(v: Seq<Json>, i: int, k: int)
    requires
        0 <= i <= k < v.len(),
        json::type_of(Some(v[k])) == Some("NFC"@) || json::type_of(Some(v[k])) == Some(
            "BertNormalizer"@,
        ),
        forall|j: int|
            i <= j < k ==> json::type_of(Some(#[trigger] v[j])) != Some("NFC"@) && json::type_of(
                Some(v[j]),
            ) != Some("BertNormalizer"@),
    ensures
        hf_normalizer::first_known(v, i) == hf_normalizer::first_known(v, k),
    decreases k - i,
{
    if i < k {
        lemma_first_known(v, i + 1, k);
    }
}

/// A charsmap that can be parsed is used where the pretokenizer makes spaces
/// visible, and words are split at whitespace where a stage asks for that; one
/// that cannot leaves SentencePiece's own rules.
pub proof fn law_precompiled_normalizer(data: Json, n: Json, r: Normalizer)
    requires
        hf_normalizer::is_choice(r, hf_normalizer::detected(data)),
        normalizer_is(data, n, "Precompiled"@),
        has_stage(data, "Metaspace"@),
    ensures
        hf_normalizer::own_charsmap(n, true) is None ==> r == Normalizer::SentencePiece,
        hf_normalizer::own_charsmap(n, true) is Some ==> r is SentencePiecePrecompiled
            && r->whitespace_split == has_stage(data, "WhitespaceSplit"@),
{
    lemma_stage(data, "Metaspace"@);
    lemma_stage(data, "WhitespaceSplit"@);
    if let Json::Object(_) = n {
    } else {
        assert(json::at(Some(n), "type"@) is None);
    }
}

} // verus!
