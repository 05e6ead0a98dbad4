//! What an encoding holds: the tokens of the text, with the special tokens
//! where each post-processor puts them.
use crate::padding;
use crate::padding::{PaddingStrategy, TruncationDirection};
use crate::postprocessor;
use crate::postprocessor::PostProcessor;
use crate::tokenizer::model;
use crate::tokenizer::Tokenizer;
use crate::types::TokenId;
use vstd::prelude::*;

verus! {

/// What each post-processor puts around one sequence, and around two.
pub proof fn law_frames(
    a: Seq<TokenId>,
    b: Seq<TokenId>,
    x: TokenId,
    y: TokenId,
)
    ensures
        ({
            let f = PostProcessor::Absent.frame();
            &&& postprocessor::framed(f, a) == a
            &&& postprocessor::framed_first(f, a) == a
            &&& postprocessor::framed_second(f, b) == b
        }),
        ({
            let f = (PostProcessor::Bert { cls_token: x, sep_token: y }).frame();
            &&& postprocessor::framed(f, a) == seq![x] + a + seq![y]
            &&& postprocessor::framed_first(f, a) == seq![x] + a + seq![y]
            &&& postprocessor::framed_second(f, b) == b + seq![y]
        }),
        ({
            let f = (PostProcessor::Prefix { bos_token: x }).frame();
            &&& postprocessor::framed(f, a) == seq![x] + a
            &&& postprocessor::framed_first(f, a) == seq![x] + a
            &&& postprocessor::framed_second(f, b) == seq![x] + b
        }),
{
    let f = PostProcessor::Absent.frame();
    assert(postprocessor::framed(f, a) =~= a);
    assert(postprocessor::framed_first(f, a) =~= a);
    assert(postprocessor::framed_second(f, b) =~= b);
    let f = (PostProcessor::Bert { cls_token: x, sep_token: y }).frame();
    assert(postprocessor::framed_second(f, b) =~= b + seq![y]);
    let f = (PostProcessor::Prefix { bos_token: x }).frame();
    assert(postprocessor::framed(f, a) =~= seq![x] + a);
    assert(postprocessor::framed_first(f, a) =~= seq![x] + a);
    assert(postprocessor::framed_second(f, b) =~= seq![x] + b);
}

/// A template puts its own tokens around a sequence, each list where its name
/// says.
pub proof fn law_template_frames(
    single_prefix: Vec<TokenId>,
    single_suffix: Vec<TokenId>,
    pair_a_prefix: Vec<TokenId>,
    pair_a_suffix: Vec<TokenId>,
    pair_b_prefix: Vec<TokenId>,
    pair_b_suffix: Vec<TokenId>,
    a: Seq<TokenId>,
    b: Seq<TokenId>,
)
    ensures
        ({
            let f = (PostProcessor::Template {
                single_prefix,
                single_suffix,
                pair_a_prefix,
                pair_a_suffix,
                pair_b_prefix,
                pair_b_suffix,
            }).frame();
            &&& postprocessor::framed(f, a) == single_prefix@ + a + single_suffix@
            &&& postprocessor::framed_first(f, a) == pair_a_prefix@ + a + pair_a_suffix@
            &&& postprocessor::framed_second(f, b) == pair_b_prefix@ + b + pair_b_suffix@
        }),
{
}

/// Special tokens are counted as they are put: a frame is as many tokens as it
/// adds.
pub proof fn law_frames_are_counted(pp: PostProcessor, a: Seq<TokenId>, b: Seq<TokenId>)
    ensures
        postprocessor::single_extra(pp.frame()) == postprocessor::framed(pp.frame(), a).len()
            - a.len(),
        postprocessor::pair_extra(pp.frame()) == postprocessor::framed_first(pp.frame(), a).len()
            + postprocessor::framed_second(pp.frame(), b).len() - a.len() - b.len(),
        forall|t: TokenId|
            pp.frame().single_prefix.contains(t) ==> postprocessor::frame_has(pp.frame(), t),
        pp is Absent ==> postprocessor::single_extra(pp.frame()) == 0
            && postprocessor::pair_extra(pp.frame()) == 0,
        pp is Bert ==> postprocessor::single_extra(pp.frame()) == 2
            && postprocessor::pair_extra(pp.frame()) == 3,
        pp is Prefix ==> postprocessor::single_extra(pp.frame()) == 1
            && postprocessor::pair_extra(pp.frame()) == 2,
{
}

/// Without special tokens and without cutting, an encoding is the tokens of
/// the text.
pub proof fn law_plain_encoding_is_the_text(t: &Tokenizer, s: Seq<char>, parallel: bool)
    requires
        t.cut_params() is None,
    ensures
        t.encoded_ids(s, false, parallel) == model::raw_tokens(t.pipeline(), s, parallel),
        t.post() is Absent ==> t.encoded_ids(s, true, parallel) == model::raw_tokens(
            t.pipeline(),
            s,
            parallel,
        ),
{
    law_frames(model::raw_tokens(t.pipeline(), s, parallel), seq![], 0, 0);
}

/// `[CLS]` stands in front of what BERT reads, `[SEP]` behind each sequence;
/// the tokens of the first sequence are of type 0, those of the second of type 1.
pub proof fn law_bert_encoding(
    t: &Tokenizer,
    a: Seq<char>,
    b: Seq<char>,
    cls_token: TokenId,
    sep_token: TokenId,
    parallel: bool,
)
    requires
        t.post() == (PostProcessor::Bert { cls_token, sep_token }),
        t.cut_params() is None,
    ensures
        t.encoded_ids(a, true, parallel) == seq![cls_token] + model::raw_tokens(
            t.pipeline(),
            a,
            parallel,
        ) + seq![sep_token],
        ({
            let x = model::raw_tokens(t.pipeline(), a, true);
            let y = model::raw_tokens(t.pipeline(), b, true);
            let e = t.encoded_pair(a, b, true);
            &&& e.ids == seq![cls_token] + x + seq![sep_token] + y + seq![sep_token]
            &&& e.type_ids.len() == e.ids.len()
            &&& forall|i: int| 0 <= i < x.len() + 2 ==> #[trigger] e.type_ids[i] == 0
            &&& forall|i: int| x.len() + 2 <= i < e.ids.len() ==> #[trigger] e.type_ids[i] == 1
            &&& e.attention_mask.len() == e.ids.len()
            &&& forall|i: int| 0 <= i < e.ids.len() ==> #[trigger] e.attention_mask[i] == 1
        }),
{
    let x = model::raw_tokens(t.pipeline(), a, true);
    let y = model::raw_tokens(t.pipeline(), b, true);
    law_frames(model::raw_tokens(t.pipeline(), a, parallel), y, cls_token, sep_token);
    law_frames(x, y, cls_token, sep_token);
    assert(t.encoded_pair(a, b, true).ids =~= seq![cls_token] + x + seq![sep_token] + y
        + seq![sep_token]);
}

/// A token for the beginning stands in front of each sequence.
pub proof fn law_prefix_encoding(
    t: &Tokenizer,
    a: Seq<char>,
    b: Seq<char>,
    bos_token: TokenId,
    parallel: bool,
)
    requires
        t.post() == (PostProcessor::Prefix { bos_token }),
        t.cut_params() is None,
    ensures
        t.encoded_ids(a, true, parallel) == seq![bos_token] + model::raw_tokens(
            t.pipeline(),
            a,
            parallel,
        ),
        ({
            let x = model::raw_tokens(t.pipeline(), a, true);
            let y = model::raw_tokens(t.pipeline(), b, true);
            let e = t.encoded_pair(a, b, true);
            &&& e.ids == seq![bos_token] + x + seq![bos_token] + y
            &&& e.type_ids.len() == e.ids.len()
            &&& forall|i: int| 0 <= i < x.len() + 1 ==> #[trigger] e.type_ids[i] == 0
            &&& forall|i: int| x.len() + 1 <= i < e.ids.len() ==> #[trigger] e.type_ids[i] == 1
        }),
{
    let x = model::raw_tokens(t.pipeline(), a, true);
    let y = model::raw_tokens(t.pipeline(), b, true);
    law_frames(model::raw_tokens(t.pipeline(), a, parallel), y, bos_token, 0);
    law_frames(x, y, bos_token, 0);
    assert(t.encoded_pair(a, b, true).ids =~= seq![bos_token] + x + seq![bos_token] + y);
}

/// Without special tokens a pair is the tokens of the one text and those of
/// the other, told apart by their types.
pub proof fn law_plain_pair(t: &Tokenizer, a: Seq<char>, b: Seq<char>)
    requires
        t.cut_params() is None,
    ensures
        ({
            let x = model::raw_tokens(t.pipeline(), a, true);
            let y = model::raw_tokens(t.pipeline(), b, true);
            let e = t.encoded_pair(a, b, false);
            &&& e.ids == x + y
            &&& e.type_ids.len() == e.ids.len()
            &&& forall|i: int| 0 <= i < x.len() ==> #[trigger] e.type_ids[i] == 0
            &&& forall|i: int| x.len() <= i < e.ids.len() ==> #[trigger] e.type_ids[i] == 1
        }),
{
}

/// A text that is cut gives way to the special tokens: they all stay, the
/// tokens of the text fill what room is left, and those that stay are its
/// first or its last.
pub proof fn law_cut_encoding_keeps_special_tokens(
    t: &Tokenizer,
    s: Seq<char>,
    cls_token: TokenId,
    sep_token: TokenId,
    parallel: bool,
)
    requires
        t.post() == (PostProcessor::Bert { cls_token, sep_token }),
        t.cut_params() is Some,
        t.cut_params()->0.max_length >= 2,
    ensures
        ({
            let raw = model::raw_tokens(t.pipeline(), s, parallel);
            let max = t.cut_params()->0.max_length;
            let r = t.encoded_ids(s, true, parallel);
            let inner = r.subrange(1, r.len() - 1);
            &&& r.len() == if raw.len() + 2 <= max {
                raw.len() + 2
            } else {
                max as nat
            }
            &&& r[0] == cls_token
            &&& r[r.len() - 1] == sep_token
            &&& (t.cut_params()->0.direction == TruncationDirection::Right ==> inner.is_prefix_of(
                raw,
            ))
            &&& (t.cut_params()->0.direction == TruncationDirection::Left ==> inner.is_suffix_of(
                raw,
            ))
        }),
{
    let raw = model::raw_tokens(t.pipeline(), s, parallel);
    let c = t.cut_params()->0;
    let cut = padding::truncated(raw, model::room(c, 2), c.direction);
    law_frames(cut, cut, cls_token, sep_token);
    let r = t.encoded_ids(s, true, parallel);
    assert(r =~= seq![cls_token] + cut + seq![sep_token]);
    assert(r.subrange(1, r.len() - 1) =~= cut);
    crate::laws::cutting::law_cut_keeps_one_end(raw, model::room(c, 2));
}

/// Without special tokens a cut text is as long as allowed.
pub proof fn law_cut_encoding_fills_the_room(t: &Tokenizer, s: Seq<char>, parallel: bool)
    requires
        t.cut_params() is Some,
    ensures
        ({
            let raw = model::raw_tokens(t.pipeline(), s, parallel);
            let max = t.cut_params()->0.max_length;
            let r = t.encoded_ids(s, false, parallel);
            &&& raw.len() <= max ==> r == raw
            &&& raw.len() > max ==> r.len() == max
            &&& (t.cut_params()->0.direction == TruncationDirection::Right ==> r.is_prefix_of(raw))
            &&& (t.cut_params()->0.direction == TruncationDirection::Left ==> r.is_suffix_of(raw))
        }),
{
    let raw = model::raw_tokens(t.pipeline(), s, parallel);
    let max = t.cut_params()->0.max_length;
    crate::laws::cutting::law_cut_keeps_one_end(raw, max as int);
}

/// A pair that is cut keeps all special tokens, and the two texts together
/// fill what room is left.
pub proof fn law_cut_pair_fills_the_room(
    t: &Tokenizer,
    a: Seq<char>,
    b: Seq<char>,
    special: bool,
)
    requires
        t.cut_params() is Some,
        t.cut_params()->0.strategy == padding::TruncationStrategy::LongestFirst,
        t.cut_params()->0.max_length >= postprocessor::pair_extra(t.post().frame()),
    ensures
        ({
            let x = model::raw_tokens(t.pipeline(), a, true);
            let y = model::raw_tokens(t.pipeline(), b, true);
            let max = t.cut_params()->0.max_length;
            let n = if special {
                postprocessor::pair_extra(t.post().frame())
            } else {
                0
            };
            t.encoded_pair(a, b, special).ids.len() == if x.len() + y.len() + n <= max {
                x.len() + y.len() + n
            } else {
                max as nat
            }
        }),
{
    let x = model::raw_tokens(t.pipeline(), a, true);
    let y = model::raw_tokens(t.pipeline(), b, true);
    let c = t.cut_params()->0;
    let n = if special {
        postprocessor::pair_extra(t.post().frame()) as int
    } else {
        0
    };
    padding::law_pair_lengths(x.len() as int, y.len() as int, model::room(c, n), c.strategy);
    let (la, lb) = padding::pair_lengths(
        x.len() as int,
        y.len() as int,
        model::room(c, n),
        c.strategy,
    );
    crate::laws::cutting::law_cut_keeps_one_end(x, la);
    crate::laws::cutting::law_cut_keeps_one_end(y, lb);
}

/// An encoding is filled to a fixed length where one is asked for, and only
/// there: the ids of the text stay in front or behind.
pub proof fn law_encoding_is_filled(t: &Tokenizer, s: Seq<char>, special: bool, parallel: bool)
    ensures
        ({
            let ids = t.encoded_ids(s, special, parallel);
            let e = t.encoded(s, special, parallel);
            &&& (t.pad_params() is None ==> e.ids == ids)
            &&& (t.pad_params() matches Some(p) ==> {
                &&& (p.strategy is BatchLongest ==> e.ids == ids)
                &&& (p.direction == padding::PaddingDirection::Right ==> ids.is_prefix_of(e.ids))
                &&& (p.direction == padding::PaddingDirection::Left ==> ids.is_suffix_of(e.ids))
                &&& (p.strategy matches PaddingStrategy::Fixed(n) ==> e.ids.len() >= n && (
                ids.len() <= n && p.pad_to_multiple_of is None ==> e.ids.len() == n))
            })
            &&& e.attention_mask.len() == e.ids.len()
            &&& e.type_ids.len() == e.ids.len()
        }),
{
    let ids = t.encoded_ids(s, special, parallel);
    if let Some(p) = t.pad_params() {
        if let PaddingStrategy::Fixed(n) = p.strategy {
            crate::laws::cutting::law_mask_marks_the_text(ids, n as int, p);
            crate::laws::cutting::law_filling_is_at_one_end(
                ids,
                padding::rounded_up(n as int, p.pad_to_multiple_of),
                p.pad_id,
            );
        }
    }
}

} // verus!
