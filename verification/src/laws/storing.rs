//! How a tokenizer is laid out in its file, number by number.
use crate::added::AddedView;
use crate::automaton;
use crate::encoder::EncoderType;
use crate::normalizer::{MetaspacePrepend, Normalizer};
use crate::postprocessor::PostProcessor;
use crate::pretok::PretokType;
use crate::serde::added_section;
use crate::serde::codec;
use crate::serde::frame;
use crate::serde::post;
use crate::serde::tkz;
use crate::tokenizer::Tokenizer;
use vstd::bytes::*;
use vstd::prelude::*;

verus! {

/// The number that stands in four bytes, the least significant first.
pub open spec fn number_at(d: Seq<u8>, p: int) -> u32 {
    spec_u32_from_le_bytes(d.subrange(p, p + 4))
}

/// Numbers that stand in a row.
pub open spec fn numbers_are(d: Seq<u8>, p: int, v: Seq<u32>) -> bool {
    forall|i: int| 0 <= i < v.len() ==> number_at(d, p + 4 * i) == #[trigger] v[i]
}

proof fn lemma_numbers(front: Seq<u8>, v: Seq<u32>, back: Seq<u8>)
    ensures
        numbers_are(front + codec::words_bytes(v) + back, front.len() as int, v),
        codec::words_bytes(v).len() == 4 * v.len(),
    decreases v.len(),
{
    codec::lemma_words_len(v);
    if v.len() > 0 {
        let w = v.drop_last();
        let last = crate::bytes::u32_bytes(v.last());
        crate::bytes::lemma_u32_bytes(v.last());
        codec::lemma_words_len(w);
        lemma_numbers(front, w, last + back);
        let d = front + codec::words_bytes(v) + back;
        assert(front + codec::words_bytes(w) + (last + back) =~= d);
        let p: int = front.len() + 4 * w.len() as int;
        assert(d.subrange(p, p + 4) =~= last);
        assert forall|i: int| 0 <= i < v.len() implies number_at(d, front.len() + 4 * i)
            == #[trigger] v[i] by {
            if i < w.len() {
                assert(w[i] == v[i]);
            } else {
                assert(v[i] == v.last());
            }
        }
    }
}

/// The number of an encoder type.
pub open spec fn encoder_number(e: EncoderType) -> u32 {
    match e {
        EncoderType::Backtracking => 0,
        EncoderType::Simple => 1,
        EncoderType::WordPiece => 2,
        EncoderType::SentencePiece => 3,
        EncoderType::Unigram => 4,
    }
}

/// The number of a pretokenizer.
pub open spec fn pretokenizer_number(t: PretokType) -> u32 {
    match t {
        PretokType::Absent => 0,
        PretokType::Gpt2 => 1,
        PretokType::Cl100k => 2,
        PretokType::O200k => 3,
        PretokType::Bert => 4,
        PretokType::Voyage => 5,
        PretokType::DeepSeek => 6,
        PretokType::SmolLM => 7,
        PretokType::Qwen35 => 8,
    }
}

/// The number of a normalizer.
pub open spec fn normalizer_number(n: Normalizer) -> u32 {
    match n {
        Normalizer::Absent => 0,
        Normalizer::BertUncased => 1,
        Normalizer::BertCased => 2,
        Normalizer::Nfc => 3,
        Normalizer::Metaspace(MetaspacePrepend::Unconditional) => 4,
        Normalizer::SentencePiece => 5,
        Normalizer::SentencePieceLowercase => 6,
        Normalizer::MetaspaceReplace => 7,
        Normalizer::SentencePiecePrecompiled { whitespace_split, .. } => if whitespace_split {
            8
        } else {
            9
        },
        Normalizer::Metaspace(MetaspacePrepend::IfNotSpaceLed) => 10,
        Normalizer::Metaspace(MetaspacePrepend::FirstSegment) => 11,
    }
}

/// The number of a post-processor.
pub open spec fn post_number(p: PostProcessor) -> u32 {
    match p {
        PostProcessor::Absent => 0,
        PostProcessor::Bert { .. } => 1,
        PostProcessor::Prefix { .. } => 2,
        PostProcessor::Template { .. } => 3,
    }
}

/// A file begins with `TOKI`, its version, the numbers of its parts, how many
/// tokens, merges and base tokens it has, and its pad token.
pub proof fn law_file_header(t: &Tokenizer)
    requires
        t.encoder_part().base_tokens() <= t.pipeline().rules.vocab.len() <= u32::MAX,
    ensures
        ({
            let d = t.saved();
            &&& d.len() >= 96
            &&& d.subrange(0, 4) == seq![0x54u8, 0x4fu8, 0x4bu8, 0x49u8]
            &&& number_at(d, 4) == 13
            &&& number_at(d, 8) == encoder_number(t.encoder_part().kind())
            &&& number_at(d, 12) == pretokenizer_number(t.pretok_type())
            &&& number_at(d, 16) == normalizer_number(t.pipeline().normalizer)
            &&& number_at(d, 20) == post_number(t.post())
            &&& number_at(d, 24) == t.pipeline().rules.vocab.len()
            &&& number_at(d, 28) == t.pipeline().rules.vocab.len()
                - t.encoder_part().base_tokens()
            &&& number_at(d, 32) == t.encoder_part().base_tokens()
            &&& t.pad_token() matches Some(id) ==> number_at(d, 36) == id
            &&& t.pad_token() is None ==> number_at(d, 36) == 0xffff_ffff
        }),
{
    let m = t.saved_meta();
    let s = t.saved_sections();
    let v = m + frame::section_table(s);
    let magic = seq![0x54u8, 0x4fu8, 0x4bu8, 0x49u8];
    lemma_numbers(magic, v, frame::joined(s, 7));
    let d = t.saved();
    assert(d =~= magic + codec::words_bytes(v) + frame::joined(s, 7));
    assert(d.subrange(0, 4) =~= magic);
    assert(v[0] == m[0] && v[1] == m[1] && v[2] == m[2] && v[3] == m[3] && v[4] == m[4] && v[5]
        == m[5] && v[6] == m[6] && v[7] == m[7] && v[8] == m[8]);
}

/// Behind the header stand the sections in this order: the vocabulary, how the
/// tokens were merged, the automaton, the prefixes, the post-processor, the
/// charsmap and the added tokens. For each the header says where it starts
/// and what its checksum is.
pub proof fn law_file_sections(t: &Tokenizer, k: int)
    requires
        0 <= k < 7,
        t.saved().len() <= u32::MAX,
    ensures
        ({
            let d = t.saved();
            let s = seq![
                codec::vocab_bytes(
                    t.decoder_part().vocabulary().starts(),
                    t.decoder_part().vocabulary().buffer(),
                ),
                codec::words_bytes(codec::split_words(t.pipeline().rules.splits)),
                automaton::matcher_bytes(t.encoder_part().automaton()),
                codec::words_bytes(t.encoder_part().prefixes()),
                codec::words_bytes(post::post_words(t.post())),
                tkz::charsmap_bytes(t.pipeline().normalizer),
                added_section::section_bytes(
                    added_section::entries_of(
                        t.pipeline().added,
                        added_section::special_views(t.specials()),
                    ),
                ),
            ];
            let from = number_at(d, 40 + 8 * k) as int;
            &&& number_at(d, 40) == 96
            &&& from + s[k].len() <= d.len()
            &&& d.subrange(from, from + s[k].len()) == s[k]
            &&& (k < 6 ==> number_at(d, 48 + 8 * k) == from + s[k].len())
            &&& (k == 6 ==> from + s[k].len() == d.len())
            &&& number_at(d, 44 + 8 * k) == frame::checksum(s[k])
        }),
{
    let m = t.saved_meta();
    let s = t.saved_sections();
    let table = frame::section_table(s);
    let v = m + table;
    let magic = seq![0x54u8, 0x4fu8, 0x4bu8, 0x49u8];
    let tail = frame::joined(s, 7);
    lemma_numbers(magic, v, tail);
    let d = t.saved();
    assert(d =~= magic + codec::words_bytes(v) + tail);
    lemma_row(s, k, 7);
    lemma_row(s, 0, 7);
    reveal_with_fuel(frame::length_of, 9);
    assert(v[9] == table[0]);
    assert(number_at(d, 4 + 4 * 9int) == v[9]);
    assert(v[9 + 2 * k] == table[2 * k]);
    assert(v[10 + 2 * k] == table[2 * k + 1]);
    assert((2 * k) / 2 == k && (2 * k) % 2 == 0 && (2 * k + 1) / 2 == k && (2 * k + 1) % 2 == 1);
    assert(number_at(d, 4 + 4 * (9 + 2 * k)) == v[9 + 2 * k]);
    assert(number_at(d, 4 + 4 * (10 + 2 * k)) == v[10 + 2 * k]);
    let a = frame::length_of(s, k);
    assert(d.subrange(96 + a, 96 + a + s[k].len()) =~= tail.subrange(a, a + s[k].len()));
    if k < 6 {
        assert(v[11 + 2 * k] == table[2 * (k + 1)]);
        assert((2 * (k + 1)) / 2 == k + 1 && (2 * (k + 1)) % 2 == 0);
        assert(number_at(d, 4 + 4 * (11 + 2 * k)) == v[11 + 2 * k]);
        lemma_row(s, k + 1, 7);
    }
}

proof fn lemma_row(s: Seq<Seq<u8>>, k: int, n: int)
    requires
        0 <= k <= n <= s.len(),
    ensures
        0 <= frame::length_of(s, k) <= frame::length_of(s, n),
        frame::joined(s, n).len() == frame::length_of(s, n),
        k < n ==> frame::length_of(s, k) + s[k].len() <= frame::length_of(s, n) && frame::joined(
            s,
            n,
        ).subrange(frame::length_of(s, k), frame::length_of(s, k) + s[k].len()) == s[k],
        k < n ==> frame::length_of(s, k + 1) == frame::length_of(s, k) + s[k].len(),
    decreases n,
{
    if n > 0 {
        if k < n {
            lemma_row(s, k, n - 1);
            let (a, b) = (frame::length_of(s, k), frame::length_of(s, k) + s[k].len());
            if k < n - 1 {
                assert(frame::joined(s, n).subrange(a, b) =~= frame::joined(s, n - 1).subrange(
                    a,
                    b,
                ));
            } else {
                assert(frame::joined(s, n).subrange(a, b) =~= s[k]);
            }
        } else {
            lemma_row(s, k - 1, n - 1);
            lemma_row(s, n - 1, n - 1);
        }
    }
}

/// In the section of a post-processor stand its tokens: `[CLS]` and `[SEP]`
/// of BERT, or the one token for the beginning.
pub proof fn law_post_sections(x: u32, y: u32)
    ensures
        ({
            let d = codec::words_bytes(
                post::post_words(PostProcessor::Bert { cls_token: x, sep_token: y }),
            );
            d.len() == 8 && number_at(d, 0) == x && number_at(d, 4) == y
        }),
        ({
            let d = codec::words_bytes(post::post_words(PostProcessor::Prefix { bos_token: x }));
            d.len() == 4 && number_at(d, 0) == x
        }),
        codec::words_bytes(post::post_words(PostProcessor::Absent)).len() == 0,
{
    let e = Seq::<u8>::empty();
    let v = seq![x, y];
    let w = seq![x];
    lemma_numbers(e, v, e);
    lemma_numbers(e, w, e);
    assert(e + codec::words_bytes(v) + e =~= codec::words_bytes(v));
    assert(e + codec::words_bytes(w) + e =~= codec::words_bytes(w));
    assert(v[0] == x && v[1] == y && w[0] == x);
}

/// In the section of a vocabulary stand the number of its offsets, the offsets
/// and the bytes of its tokens.
pub proof fn law_vocabulary_section(starts: Seq<u32>, data: Seq<u8>, i: int)
    requires
        0 <= i < starts.len() <= u32::MAX,
    ensures
        ({
            let d = codec::vocab_bytes(starts, data);
            &&& number_at(d, 0) == starts.len()
            &&& number_at(d, 4 + 4 * i) == starts[i]
            &&& d.subrange(4 + 4 * starts.len() as int, d.len() as int) == data
        }),
{
    let e = Seq::<u8>::empty();
    let head = crate::bytes::u32_bytes(starts.len() as u32);
    crate::bytes::lemma_u32_bytes(starts.len() as u32);
    let d = codec::vocab_bytes(starts, data);
    lemma_numbers(head, starts, data);
    assert(d =~= head + codec::words_bytes(starts) + data);
    assert(d.subrange(0, 4) =~= head);
    assert(d.subrange(4 + 4 * starts.len() as int, d.len() as int) =~= data);
}

/// A number that is set or not.
pub open spec fn if_set(set: bool, n: int) -> int {
    if set {
        n
    } else {
        0
    }
}

/// In the section of the added tokens stand their number and, for each, its id,
/// a byte of flags, the number of its bytes and its bytes. The flags are 1 for
/// a special token, 4 and 8 for one that takes the whitespace in front or
/// behind, 16 for one that is looked for in normalized text, and 32 for one
/// that stands alone.
pub proof fn law_added_section(t: AddedView, specials: Seq<added_section::SpecialView>)
    requires
        t.bytes.len() <= u32::MAX,
        t.special,
    ensures
        ({
            let e = added_section::added_entry(t, specials);
            let d = added_section::entry_bytes(e);
            &&& number_at(d, 0) == t.id
            &&& d[4] == 1 + if_set(t.lstrip, 4) + if_set(t.rstrip, 8) + if_set(t.normalized, 16)
                + if_set(t.single_word, 32)
            &&& number_at(d, 5) == t.bytes.len()
            &&& d.subrange(9, d.len() as int) == t.bytes
            &&& number_at(added_section::section_bytes(seq![e]), 0) == 1
            &&& added_section::section_bytes(seq![e]).len() == 4 + d.len()
        }),
{
    let e = added_section::added_entry(t, specials);
    let d = added_section::entry_bytes(e);
    crate::bytes::lemma_u32_bytes(t.id);
    crate::bytes::lemma_u32_bytes(t.bytes.len() as u32);
    crate::bytes::lemma_u32_bytes(1);
    assert(d.subrange(0, 4) =~= crate::bytes::u32_bytes(t.id));
    assert(d.subrange(5, 9) =~= crate::bytes::u32_bytes(t.bytes.len() as u32));
    assert(d.subrange(9, d.len() as int) =~= t.bytes);
    assert(seq![e].drop_last() =~= Seq::empty());
    assert(added_section::entries_bytes(Seq::<added_section::Entry>::empty()) =~= Seq::empty());
    assert(added_section::entries_bytes(seq![e]) =~= d);
    let s = added_section::section_bytes(seq![e]);
    assert(s.subrange(0, 4) =~= crate::bytes::u32_bytes(1));
    let l: u8 = if_set(t.lstrip, 4) as u8;
    let r: u8 = if_set(t.rstrip, 8) as u8;
    let n: u8 = if_set(t.normalized, 16) as u8;
    let w: u8 = if_set(t.single_word, 32) as u8;
    assert((l == 0 || l == 4) && (r == 0 || r == 8) && (n == 0 || n == 16) && (w == 0 || w == 32)
        ==> (1u8 | l | r | n | w) == 1 + l + r + n + w) by (bit_vector);
}

} // verus!
