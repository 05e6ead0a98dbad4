//! What decoding gives back: the special tokens around sequences leave no
//! trace, and the pieces of a word are put together again.
use crate::decoder;
use crate::decoder::{Decoder, DecoderType};
use crate::encoder::backtracking;
use crate::encoder::EncoderType;
use crate::postprocessor;
use crate::postprocessor::{Frame, PostProcessor};
use crate::text;
use crate::types::TokenId;
use vstd::prelude::*;

verus! {

// ---- special tokens ----

/// The token is put around a sequence, or around the sequences of a pair.
pub open spec fn is_put_around(f: Frame, t: TokenId) -> bool {
    ||| postprocessor::framed(f, seq![]).contains(t)
    ||| postprocessor::framed_first(f, seq![]).contains(t)
    ||| postprocessor::framed_second(f, seq![]).contains(t)
}

proof fn lemma_put_around(f: Frame, t: TokenId)
    ensures
        is_put_around(f, t) <==> postprocessor::frame_has(f, t),
{
    lemma_three(f.single_prefix, f.single_suffix, t);
    lemma_three(f.pair_a_prefix, f.pair_a_suffix, t);
    lemma_three(f.pair_b_prefix, f.pair_b_suffix, t);
}

proof fn lemma_three(a: Seq<TokenId>, b: Seq<TokenId>, t: TokenId)
    ensures
        (a + seq![] + b).contains(t) <==> a.contains(t) || b.contains(t),
{
    let s = a + seq![] + b;
    assert(s =~= a + b);
    if a.contains(t) {
        let i = choose|i: int| 0 <= i < a.len() && a[i] == t;
        assert(s[i] == t);
    }
    if b.contains(t) {
        let i = choose|i: int| 0 <= i < b.len() && b[i] == t;
        assert(s[a.len() + i] == t);
    }
    if s.contains(t) {
        let i = choose|i: int| 0 <= i < s.len() && s[i] == t;
        if i < a.len() {
            assert(a[i] == t);
        } else {
            assert(b[i - a.len()] == t);
        }
    }
}

/// The special tokens leave no trace in a text of words, wherever they stand:
/// the other tokens alone give the same text.
pub proof fn law_special_tokens_leave_no_trace(
    vocab: Seq<Seq<u8>>,
    f: Frame,
    tokens: Seq<TokenId>,
)
    ensures
        decoder::words_of(vocab, f, tokens) == decoder::words_of(
            vocab,
            f,
            tokens.filter(|t: TokenId| !is_put_around(f, t)),
        ),
    decreases tokens.len(),
{
    let p = |t: TokenId| !is_put_around(f, t);
    reveal(Seq::filter);
    if tokens.len() > 0 {
        let t = tokens.last();
        law_special_tokens_leave_no_trace(vocab, f, tokens.drop_last());
        lemma_put_around(f, t);
        let rest = tokens.drop_last().filter(p);
        if p(t) {
            assert(rest.push(t).drop_last() =~= rest);
        }
    } else {
        assert(tokens.filter(p) =~= tokens);
    }
}

/// The tokens that are not special decide alone: with a frame that has none
/// of them, the text is that of no frame at all.
pub proof fn law_other_tokens_all_count(
    vocab: Seq<Seq<u8>>,
    f: Frame,
    tokens: Seq<TokenId>,
)
    requires
        forall|i: int| 0 <= i < tokens.len() ==> !is_put_around(f, #[trigger] tokens[i]),
    ensures
        decoder::words_of(vocab, f, tokens) == decoder::words_of(
            vocab,
            PostProcessor::Absent.frame(),
            tokens,
        ),
    decreases tokens.len(),
{
    if tokens.len() > 0 {
        assert forall|i: int| 0 <= i < tokens.drop_last().len() implies !is_put_around(
            f,
            #[trigger] tokens.drop_last()[i],
        ) by {
            assert(tokens.drop_last()[i] == tokens[i]);
        }
        law_other_tokens_all_count(vocab, f, tokens.drop_last());
        assert(!is_put_around(f, tokens[tokens.len() - 1]));
        lemma_put_around(f, tokens.last());
    }
}

proof fn lemma_filter_all(s: Seq<TokenId>, p: spec_fn(TokenId) -> bool, keep: bool)
    requires
        forall|i: int| 0 <= i < s.len() ==> p(#[trigger] s[i]) == keep,
    ensures
        s.filter(p) == if keep {
            s
        } else {
            seq![]
        },
    decreases s.len(),
{
    reveal(Seq::filter);
    if s.len() > 0 {
        assert forall|i: int| 0 <= i < s.drop_last().len() implies p(
            #[trigger] s.drop_last()[i],
        ) == keep by {
            assert(s.drop_last()[i] == s[i]);
        }
        lemma_filter_all(s.drop_last(), p, keep);
        assert(p(s[s.len() - 1]) == keep);
        assert(s.drop_last().push(s.last()) =~= s);
    }
}

proof fn lemma_framed_filters(
    f: Frame,
    pre: Seq<TokenId>,
    ids: Seq<TokenId>,
    post: Seq<TokenId>,
)
    requires
        forall|i: int| 0 <= i < ids.len() ==> !is_put_around(f, #[trigger] ids[i]),
        forall|i: int| 0 <= i < pre.len() ==> is_put_around(f, #[trigger] pre[i]),
        forall|i: int| 0 <= i < post.len() ==> is_put_around(f, #[trigger] post[i]),
    ensures
        (pre + ids + post).filter(|t: TokenId| !is_put_around(f, t)) == ids,
{
    let p = |t: TokenId| !is_put_around(f, t);
    lemma_filter_all(pre, p, false);
    lemma_filter_all(ids, p, true);
    lemma_filter_all(post, p, false);
    Seq::filter_distributes_over_add(pre, ids, p);
    Seq::filter_distributes_over_add(pre + ids, post, p);
    assert((pre + ids + post).filter(p) =~= ids);
}

/// The tokens that a frame puts around a sequence are the special ones.
proof fn lemma_unframed(f: Frame, a: Seq<TokenId>)
    requires
        forall|i: int| 0 <= i < a.len() ==> !is_put_around(f, #[trigger] a[i]),
    ensures
        postprocessor::framed(f, a).filter(|t: TokenId| !is_put_around(f, t)) == a,
        postprocessor::framed_first(f, a).filter(|t: TokenId| !is_put_around(f, t)) == a,
        postprocessor::framed_second(f, a).filter(|t: TokenId| !is_put_around(f, t)) == a,
{
    lemma_are_put(f, f.single_prefix);
    lemma_are_put(f, f.single_suffix);
    lemma_framed_filters(f, f.single_prefix, a, f.single_suffix);
    lemma_are_put(f, f.pair_a_prefix);
    lemma_are_put(f, f.pair_a_suffix);
    lemma_framed_filters(f, f.pair_a_prefix, a, f.pair_a_suffix);
    lemma_are_put(f, f.pair_b_prefix);
    lemma_are_put(f, f.pair_b_suffix);
    lemma_framed_filters(f, f.pair_b_prefix, a, f.pair_b_suffix);
}

proof fn lemma_are_put(f: Frame, s: Seq<TokenId>)
    requires
        s == f.single_prefix || s == f.single_suffix || s == f.pair_a_prefix || s
            == f.pair_a_suffix || s == f.pair_b_prefix || s == f.pair_b_suffix,
    ensures
        forall|i: int| 0 <= i < s.len() ==> is_put_around(f, #[trigger] s[i]),
{
    assert forall|i: int| 0 <= i < s.len() implies is_put_around(f, #[trigger] s[i]) by {
        assert(s.contains(s[i]));
        assert(postprocessor::frame_has(f, s[i]));
        lemma_put_around(f, s[i]);
    }
}

/// Word tokens with special tokens around them decode as they do without,
/// a pair of sequences as the two one behind the other.
pub proof fn law_framed_words_decode_as_words(
    d: &Decoder,
    pp: PostProcessor,
    a: Seq<TokenId>,
    b: Seq<TokenId>,
)
    requires
        d.kind() == DecoderType::WordPiece,
        forall|i: int| 0 <= i < a.len() ==> !is_put_around(pp.frame(), #[trigger] a[i]),
        forall|i: int| 0 <= i < b.len() ==> !is_put_around(pp.frame(), #[trigger] b[i]),
    ensures
        d.decoded(pp, postprocessor::framed(pp.frame(), a)) == d.decoded(
            PostProcessor::Absent,
            a,
        ),
        d.decoded(
            pp,
            postprocessor::framed_first(pp.frame(), a) + postprocessor::framed_second(
                pp.frame(),
                b,
            ),
        ) == d.decoded(PostProcessor::Absent, a + b),
{
    lemma_framed_words(d.tokens(), pp.frame(), a);
    lemma_framed_pair(d.tokens(), pp.frame(), a, b);
}

proof fn lemma_framed_words(vocab: Seq<Seq<u8>>, f: Frame, a: Seq<TokenId>)
    requires
        forall|i: int| 0 <= i < a.len() ==> !is_put_around(f, #[trigger] a[i]),
    ensures
        decoder::words_of(vocab, f, postprocessor::framed(f, a)) == decoder::words_of(
            vocab,
            PostProcessor::Absent.frame(),
            a,
        ),
{
    lemma_unframed(f, a);
    law_special_tokens_leave_no_trace(vocab, f, postprocessor::framed(f, a));
    law_other_tokens_all_count(vocab, f, a);
}

proof fn lemma_framed_pair(vocab: Seq<Seq<u8>>, f: Frame, a: Seq<TokenId>, b: Seq<TokenId>)
    requires
        forall|i: int| 0 <= i < a.len() ==> !is_put_around(f, #[trigger] a[i]),
        forall|i: int| 0 <= i < b.len() ==> !is_put_around(f, #[trigger] b[i]),
    ensures
        decoder::words_of(
            vocab,
            f,
            postprocessor::framed_first(f, a) + postprocessor::framed_second(f, b),
        ) == decoder::words_of(vocab, PostProcessor::Absent.frame(), a + b),
{
    let x = postprocessor::framed_first(f, a);
    let y = postprocessor::framed_second(f, b);
    let p = |t: TokenId| !is_put_around(f, t);
    assert((x + y).filter(p) == a + b) by {
        lemma_unframed(f, a);
        lemma_unframed(f, b);
        Seq::filter_distributes_over_add(x, y, p);
    }
    law_special_tokens_leave_no_trace(vocab, f, x + y);
    assert forall|i: int| 0 <= i < (a + b).len() implies !is_put_around(
        f,
        #[trigger] (a + b)[i],
    ) by {
        if i < a.len() {
            assert(!is_put_around(f, a[i]));
        } else {
            assert(!is_put_around(f, b[i - a.len()]));
        }
    }
    law_other_tokens_all_count(vocab, f, a + b);
}

/// `[CLS]` and `[SEP]` of BERT leave no trace in a text of words.
pub proof fn law_bert_frame_leaves_no_trace(
    d: &Decoder,
    cls_token: TokenId,
    sep_token: TokenId,
    a: Seq<TokenId>,
    b: Seq<TokenId>,
)
    requires
        d.kind() == DecoderType::WordPiece,
        !a.contains(cls_token),
        !a.contains(sep_token),
        !b.contains(cls_token),
        !b.contains(sep_token),
    ensures
        d.decoded(
            PostProcessor::Bert { cls_token, sep_token },
            seq![cls_token] + a + seq![sep_token],
        ) == d.decoded(PostProcessor::Absent, a),
        d.decoded(
            PostProcessor::Bert { cls_token, sep_token },
            seq![cls_token] + a + seq![sep_token] + b + seq![sep_token],
        ) == d.decoded(PostProcessor::Absent, a + b),
{
    let pp = PostProcessor::Bert { cls_token, sep_token };
    let f = pp.frame();
    assert forall|t: TokenId| is_put_around(f, t) implies t == cls_token || t == sep_token by {
        lemma_put_around(f, t);
    }
    assert forall|i: int| 0 <= i < a.len() implies !is_put_around(f, #[trigger] a[i]) by {
        assert(a.contains(a[i]));
    }
    assert forall|i: int| 0 <= i < b.len() implies !is_put_around(f, #[trigger] b[i]) by {
        assert(b.contains(b[i]));
    }
    law_framed_words_decode_as_words(d, pp, a, b);
    assert(postprocessor::framed(f, a) =~= seq![cls_token] + a + seq![sep_token]);
    assert(postprocessor::framed_first(f, a) + postprocessor::framed_second(f, b)
        =~= seq![cls_token] + a + seq![sep_token] + b + seq![sep_token]);
}

// ---- words ----

/// The bytes of parts, one behind the other.
pub open spec fn joined(parts: Seq<Seq<u8>>) -> Seq<u8> {
    parts.flatten()
}

/// The token carries a word on: its bytes start with `##`.
pub open spec fn carries_on(token: Seq<u8>) -> bool {
    seq![0x23u8, 0x23u8].is_prefix_of(token)
}

/// The pieces of a word give the word: the first as it stands, each further
/// one without its `##`.
pub proof fn law_pieces_make_a_word(
    vocab: Seq<Seq<u8>>,
    before: Seq<TokenId>,
    pieces: Seq<TokenId>,
    parts: Seq<Seq<u8>>,
)
    requires
        pieces.len() == parts.len(),
        forall|i: int|
            0 <= i < pieces.len() ==> vocab[#[trigger] pieces[i] as int] == seq![0x23u8, 0x23u8]
                + parts[i],
    ensures
        decoder::words_of(vocab, PostProcessor::Absent.frame(), before + pieces)
            == decoder::words_of(vocab, PostProcessor::Absent.frame(), before) + joined(parts),
    decreases pieces.len(),
{
    let f = PostProcessor::Absent.frame();
    if pieces.len() == 0 {
        assert(before + pieces =~= before);
        assert(parts =~= Seq::empty());
        assert(joined(parts) =~= Seq::empty());
    } else {
        let n = pieces.len() - 1;
        let init = pieces.drop_last();
        assert forall|i: int| 0 <= i < init.len() implies vocab[#[trigger] init[i] as int]
            == seq![0x23u8, 0x23u8] + parts.drop_last()[i] by {
            assert(init[i] == pieces[i]);
        }
        law_pieces_make_a_word(vocab, before, init, parts.drop_last());
        let all = before + pieces;
        assert(all.drop_last() =~= before + init);
        assert(all.last() == pieces[n]);
        let t = vocab[pieces[n] as int];
        assert(t == seq![0x23u8, 0x23u8] + parts[n]);
        assert(t.subrange(2, t.len() as int) =~= parts[n]);
        assert(parts =~= parts.drop_last().push(parts.last()));
        parts.drop_last().lemma_flatten_push(parts.last());
        assert(decoder::words_of(vocab, f, all) =~= decoder::words_of(vocab, f, before) + joined(
            parts,
        ));
    }
}

/// The first piece of a word stands behind a space, but for the first word of
/// the text.
pub proof fn law_words_stand_apart(vocab: Seq<Seq<u8>>, before: Seq<TokenId>, t: TokenId)
    requires
        !carries_on(vocab[t as int]),
    ensures
        decoder::words_of(vocab, PostProcessor::Absent.frame(), seq![t]) == vocab[t as int],
        decoder::words_of(vocab, PostProcessor::Absent.frame(), before).len() > 0
            ==> decoder::words_of(vocab, PostProcessor::Absent.frame(), before.push(t))
            == decoder::words_of(vocab, PostProcessor::Absent.frame(), before) + seq![0x20u8]
            + vocab[t as int],
        decoder::words_of(vocab, PostProcessor::Absent.frame(), before).len() == 0
            ==> decoder::words_of(vocab, PostProcessor::Absent.frame(), before.push(t))
            == vocab[t as int],
{
    let f = PostProcessor::Absent.frame();
    let b = vocab[t as int];
    if b.len() >= 2 && b[0] == 0x23 && b[1] == 0x23 {
        assert(b.subrange(0, 2) =~= seq![0x23u8, 0x23u8]);
        assert(seq![0x23u8, 0x23u8].is_prefix_of(b));
    }
    assert(before.push(t).drop_last() =~= before);
    assert(seq![t].drop_last() =~= Seq::<TokenId>::empty());
    assert(seq![t].last() == t);
    assert(decoder::words_of(vocab, f, Seq::<TokenId>::empty()) =~= Seq::<u8>::empty());
}

// ---- bytes ----

/// The bytes of tokens are the bytes of each, one behind the other.
pub proof fn law_bytes_are_joined(vocab: Seq<Seq<u8>>, tokens: Seq<TokenId>)
    ensures
        backtracking::token_bytes_of(vocab, tokens) == joined(
            tokens.map_values(|t: TokenId| vocab[t as int]),
        ),
    decreases tokens.len(),
{
    let g = |t: TokenId| vocab[t as int];
    let m = tokens.map_values(g);
    if tokens.len() == 0 {
        assert(m =~= Seq::empty());
        assert(joined(m) =~= Seq::empty());
    } else {
        law_bytes_are_joined(vocab, tokens.drop_last());
        let i = tokens.drop_last().map_values(g);
        assert(m =~= i.push(vocab[tokens.last() as int]));
        i.lemma_flatten_push(vocab[tokens.last() as int]);
    }
}

/// A byte-level decoder gives the bytes of the tokens and nothing else,
/// whatever post-processor goes with it.
pub proof fn law_byte_level_decodes_bytes(d: &Decoder, pp: PostProcessor, tokens: Seq<TokenId>)
    requires
        d.kind() == DecoderType::ByteLevel,
    ensures
        d.decoded(pp, tokens) == joined(tokens.map_values(|t: TokenId| d.tokens()[t as int])),
{
    law_bytes_are_joined(d.tokens(), tokens);
}

/// A decoder of visible spaces gives the bytes of the tokens as they stand
/// where these have no `▁` and no space in front.
pub proof fn law_plain_tokens_decode_as_they_are(
    d: &Decoder,
    pp: PostProcessor,
    tokens: Seq<TokenId>,
    s: Seq<char>,
)
    requires
        d.kind() == DecoderType::Metaspace,
        text::utf8(s) == joined(tokens.map_values(|t: TokenId| d.tokens()[t as int])),
        !s.contains(' '),
        !s.contains('\u{2581}'),
    ensures
        d.decoded(pp, tokens) == text::utf8(s),
{
    law_bytes_are_joined(d.tokens(), tokens);
    crate::laws::spacing::law_decoding_undoes_metaspaces(s);
    assert(crate::normalizer::metaspaced(s) =~= s) by {
        assert forall|i: int| 0 <= i < s.len() implies crate::normalizer::metaspaced(s)[i]
            == s[i] by {
            assert(s.contains(s[i]));
        }
    }
    if s.len() > 0 {
        assert(s.contains(s[0]));
    }
}

/// Only WordPiece tokens are words; the tokens of SentencePiece and Unigram
/// have visible spaces; all others are bytes.
pub proof fn law_decoder_goes_with_encoder(e: EncoderType)
    ensures
        decoder::decoder_type_of(e) == DecoderType::WordPiece <==> e == EncoderType::WordPiece,
        decoder::decoder_type_of(e) == DecoderType::Metaspace <==> e == EncoderType::SentencePiece
            || e == EncoderType::Unigram,
        decoder::decoder_type_of(e) == DecoderType::ByteLevel <==> e == EncoderType::Backtracking
            || e == EncoderType::Simple,
{
}

} // verus!
