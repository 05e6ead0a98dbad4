//! From a text to its tokens: the steps that every tokenizer goes through, and
//! how what goes in is told in what comes out.
use crate::added::AddedView;
use crate::automaton;
use crate::encoder::backtracking;
use crate::laws::finding;
use crate::laws::pieces;
use crate::laws::pieces::{all, small};
use crate::laws::pretokenizers;
use crate::normalizer::Normalizer;
use crate::pretok::Pretokenizer;
use crate::text;
use crate::tokenizer;
use crate::tokenizer::model;
use crate::tokenizer::model::Pipeline;
use vstd::prelude::*;
use vstd::utf8::*;

verus! {

// ---- pieces ----

/// Each piece is encoded on its own, and the tokens stand in the order of the
/// pieces.
pub proof fn law_pieces_are_encoded_apart(
    r: backtracking::Rules,
    b: Seq<u8>,
    u: Seq<(int, int)>,
    v: Seq<(int, int)>,
    s: int,
    e: int,
    workers: int,
)
    ensures
        model::piece_tokens(r, b, u + v, workers) == model::piece_tokens(r, b, u, workers)
            + model::piece_tokens(r, b, v, workers),
        model::piece_tokens(r, b, seq![(s, e)], workers) == backtracking::encoding(
            r,
            b.subrange(s, e),
            workers,
        ),
        model::piece_tokens(r, b, seq![], workers).len() == 0,
    decreases v.len(),
{
    assert(seq![(s, e)].drop_last() =~= Seq::<(int, int)>::empty());
    assert(model::piece_tokens(r, b, Seq::<(int, int)>::empty(), workers) =~= Seq::empty());
    assert(model::piece_tokens(r, b, seq![(s, e)], workers) =~= backtracking::encoding(
        r,
        b.subrange(s, e),
        workers,
    ));
    if v.len() == 0 {
        assert(u + v =~= u);
        assert(model::piece_tokens(r, b, u, workers) + model::piece_tokens(r, b, v, workers)
            =~= model::piece_tokens(r, b, u, workers));
    } else {
        law_pieces_are_encoded_apart(r, b, u, v.drop_last(), s, e, workers);
        assert((u + v).drop_last() =~= u + v.drop_last());
        assert(model::piece_tokens(r, b, u + v, workers) =~= model::piece_tokens(r, b, u, workers)
            + model::piece_tokens(r, b, v, workers));
    }
}

/// Two words are encoded each on its own, the second with the space in front
/// of it.
pub proof fn law_two_words_are_encoded_apart(
    p: Pipeline,
    t: Pretokenizer,
    a: Seq<char>,
    b: Seq<char>,
)
    requires
        p.pretok == Some(t),
        t != Pretokenizer::Bert,
        p.normalizer == Normalizer::Absent,
        a.len() > 0,
        all(a, |c: char| small(c)),
        b.len() > 0,
        all(b, |c: char| small(c)),
    ensures
        model::plain_tokens(p, a + (seq![' '] + b)) == backtracking::encoding(
            p.rules,
            text::utf8(a),
            p.workers,
        ) + backtracking::encoding(p.rules, text::utf8(seq![' '] + b), p.workers),
{
    let c = seq![' '] + b;
    let x = text::utf8(a + c);
    pretokenizers::law_two_words(t, a, b);
    text::lemma_utf8_concat(a, c);
    let n = text::utf8(a).len() as int;
    let l = x.len() as int;
    let u = seq![(0int, n)];
    let v = seq![(n, l)];
    assert(u + v =~= seq![(0int, n), (n, l)]);
    law_pieces_are_encoded_apart(p.rules, x, u, v, 0, n, p.workers);
    law_pieces_are_encoded_apart(p.rules, x, u, v, n, l, p.workers);
    assert(x.subrange(0, n) =~= text::utf8(a));
    assert(x.subrange(n, l) =~= text::utf8(c));
}

/// A word is encoded as a whole.
pub proof fn law_word_is_encoded_whole(p: Pipeline, t: Pretokenizer, a: Seq<char>)
    requires
        p.pretok == Some(t),
        t != Pretokenizer::Bert,
        p.normalizer == Normalizer::Absent,
        a.len() > 0,
        all(a, |c: char| small(c)),
    ensures
        model::plain_tokens(p, a) == backtracking::encoding(p.rules, text::utf8(a), p.workers),
{
    pretokenizers::law_small_words(t, a);
    let x = text::utf8(a);
    let n = x.len() as int;
    law_pieces_are_encoded_apart(p.rules, x, seq![], seq![], 0, n, p.workers);
    assert(x.subrange(0, n) =~= x);
}

/// Without a pretokenizer a text is normalized and encoded as a whole.
pub proof fn law_without_pretokenizer(p: Pipeline, s: Seq<char>, parallel: bool)
    requires
        p.pretok is None,
        p.raw is None,
        p.norm is None,
    ensures
        model::raw_tokens(p, s, parallel) == backtracking::encoding(
            p.rules,
            text::utf8(p.normalizer.normal_form(s)),
            p.workers,
        ),
{
}

// ---- added tokens ----

/// An added token that is found in a text gives its own id, between the tokens
/// of what stands in front of it and of what stands behind it.
pub proof fn law_added_token_gives_its_id(
    p: Pipeline,
    patterns: Seq<automaton::Pattern>,
    k: u32,
    x: Seq<char>,
    t: Seq<char>,
    y: Seq<char>,
)
    requires
        p.raw == Some(patterns),
        p.norm is None,
        p.pretok is Some,
        k < p.added.len(),
        !p.added[k as int].single_word,
        !p.added[k as int].lstrip,
        !p.added[k as int].rstrip,
        x.len() > 0,
        t.len() > 0,
        y.len() > 0,
        automaton::matches_in(patterns, text::utf8(x + t + y)) == seq![
            (k, text::utf8(x).len() as int, text::utf8(x + t).len() as int),
        ],
    ensures
        model::raw_tokens(p, x + t + y, false) == model::plain_tokens(p, x) + seq![
            p.added[k as int].id,
        ] + model::plain_tokens(p, y),
{
    let b = text::utf8(x + t + y);
    let s = text::utf8(x).len() as int;
    let e = text::utf8(x + t).len() as int;
    let l = b.len() as int;
    finding::law_text_around_an_added_token(p.added, k, x, t, y);
    text::lemma_utf8_concat(x, t);
    text::lemma_utf8_concat(x + t, y);
    assert(b.subrange(0, s) =~= text::utf8(x));
    assert(b.subrange(e, l) =~= text::utf8(y));
    encode_utf8_decode_utf8(x);
    encode_utf8_decode_utf8(y);
    let parts = model::raw_parts(p, b);
    let three = seq![(None::<int>, 0int, s), (Some(k as int), s, e), (None::<int>, e, l)];
    assert(parts == three);
    let two = three.drop_last();
    assert(two =~= seq![(None::<int>, 0int, s), (Some(k as int), s, e)]);
    let one = two.drop_last();
    assert(one =~= seq![(None::<int>, 0int, s)]);
    assert(one.drop_last() =~= Seq::empty());
    assert(three.last() == (None::<int>, e, l));
    assert(two.last() == (Some(k as int), s, e));
    assert(one.last() == (None::<int>, 0int, s));
    reveal_with_fuel(model::raw_parts_tokens, 4);
    assert(model::raw_parts_tokens(p, b, one, false) =~= model::plain_tokens(p, x));
    assert(model::raw_parts_tokens(p, b, two, false) =~= model::plain_tokens(p, x) + seq![
        p.added[k as int].id,
    ]);
    assert(model::raw_parts_tokens(p, b, three, false) =~= model::plain_tokens(p, x) + seq![
        p.added[k as int].id,
    ] + model::plain_tokens(p, y));
}

/// Without a pretokenizer too, and there what stands in front of the token is
/// normalized as the first segment of the text, and what stands behind it as a
/// later one.
pub proof fn law_segments_around_an_added_token(
    p: Pipeline,
    patterns: Seq<automaton::Pattern>,
    k: u32,
    x: Seq<char>,
    t: Seq<char>,
    y: Seq<char>,
    parallel: bool,
)
    requires
        p.raw == Some(patterns),
        p.norm is None,
        p.pretok is None,
        k < p.added.len(),
        !p.added[k as int].single_word,
        !p.added[k as int].lstrip,
        !p.added[k as int].rstrip,
        x.len() > 0,
        t.len() > 0,
        y.len() > 0,
        automaton::matches_in(patterns, text::utf8(x + t + y)) == seq![
            (k, text::utf8(x).len() as int, text::utf8(x + t).len() as int),
        ],
    ensures
        model::raw_tokens(p, x + t + y, parallel) == backtracking::encoding(
            p.rules,
            text::utf8(p.normalizer.segment_form(x, true)),
            p.workers,
        ) + seq![p.added[k as int].id] + backtracking::encoding(
            p.rules,
            text::utf8(p.normalizer.segment_form(y, false)),
            p.workers,
        ),
{
    let b = text::utf8(x + t + y);
    let s = text::utf8(x).len() as int;
    let e = text::utf8(x + t).len() as int;
    let l = b.len() as int;
    finding::law_text_around_an_added_token(p.added, k, x, t, y);
    text::lemma_utf8_concat(x, t);
    text::lemma_utf8_concat(x + t, y);
    encode_utf8_first_scalar(x);
    assert(b.subrange(0, s) =~= text::utf8(x));
    assert(b.subrange(e, l) =~= text::utf8(y));
    encode_utf8_decode_utf8(x);
    encode_utf8_decode_utf8(y);
    let front = backtracking::encoding(
        p.rules,
        text::utf8(p.normalizer.segment_form(x, true)),
        p.workers,
    );
    let back = backtracking::encoding(
        p.rules,
        text::utf8(p.normalizer.segment_form(y, false)),
        p.workers,
    );
    let three = seq![(None::<int>, 0int, s), (Some(k as int), s, e), (None::<int>, e, l)];
    assert(model::raw_parts(p, b) == three);
    let two = three.drop_last();
    assert(two =~= seq![(None::<int>, 0int, s), (Some(k as int), s, e)]);
    let one = two.drop_last();
    assert(one =~= seq![(None::<int>, 0int, s)]);
    assert(one.drop_last() =~= Seq::empty());
    assert(three.last() == (None::<int>, e, l));
    assert(two.last() == (Some(k as int), s, e));
    assert(one.last() == (None::<int>, 0int, s));
    reveal_with_fuel(model::raw_parts_tokens, 4);
    assert(e > 0);
    assert(model::raw_parts_tokens(p, b, one, parallel) =~= front);
    assert(model::raw_parts_tokens(p, b, two, parallel) =~= front + seq![p.added[k as int].id]);
    assert(model::raw_parts_tokens(p, b, three, parallel) =~= front + seq![p.added[k as int].id]
        + back);
}

/// A token that is looked for in normalized text gives its id too, between the
/// tokens of the normalized text on its two sides.
pub proof fn law_normalized_token_gives_its_id(
    p: Pipeline,
    patterns: Seq<automaton::Pattern>,
    k: u32,
    s: Seq<char>,
    x: Seq<char>,
    t: Seq<char>,
    y: Seq<char>,
    first: bool,
    parallel: bool,
)
    requires
        p.norm == Some(patterns),
        p.pretok is None,
        p.normalizer.segment_form(s, first) == x + t + y,
        k < p.added.len(),
        !p.added[k as int].single_word,
        !p.added[k as int].lstrip,
        !p.added[k as int].rstrip,
        x.len() > 0,
        t.len() > 0,
        y.len() > 0,
        automaton::matches_in(patterns, text::utf8(x + t + y)) == seq![
            (k, text::utf8(x).len() as int, text::utf8(x + t).len() as int),
        ],
    ensures
        model::split_segment_tokens(p, s, first, parallel) == backtracking::encoding(
            p.rules,
            text::utf8(x),
            p.workers,
        ) + seq![p.added[k as int].id] + backtracking::encoding(
            p.rules,
            text::utf8(y),
            p.workers,
        ),
{
    let b = text::utf8(x + t + y);
    let n = text::utf8(x).len() as int;
    let e = text::utf8(x + t).len() as int;
    let l = b.len() as int;
    finding::law_text_around_an_added_token(p.added, k, x, t, y);
    text::lemma_utf8_concat(x, t);
    text::lemma_utf8_concat(x + t, y);
    assert(b.subrange(0, n) =~= text::utf8(x));
    assert(b.subrange(e, l) =~= text::utf8(y));
    encode_utf8_decode_utf8(x);
    encode_utf8_decode_utf8(y);
    let front = backtracking::encoding(p.rules, text::utf8(x), p.workers);
    let back = backtracking::encoding(p.rules, text::utf8(y), p.workers);
    let three = seq![(None::<int>, 0int, n), (Some(k as int), n, e), (None::<int>, e, l)];
    let two = three.drop_last();
    assert(two =~= seq![(None::<int>, 0int, n), (Some(k as int), n, e)]);
    let one = two.drop_last();
    assert(one =~= seq![(None::<int>, 0int, n)]);
    assert(one.drop_last() =~= Seq::empty());
    assert(three.last() == (None::<int>, e, l));
    assert(two.last() == (Some(k as int), n, e));
    assert(one.last() == (None::<int>, 0int, n));
    reveal_with_fuel(model::norm_parts_tokens, 4);
    assert(model::norm_parts_tokens(p, b, one, parallel) =~= front);
    assert(model::norm_parts_tokens(p, b, two, parallel) =~= front + seq![p.added[k as int].id]);
    assert(model::norm_parts_tokens(p, b, three, parallel) =~= front + seq![p.added[k as int].id]
        + back);
}

/// An added token is looked for in the raw text by its bytes, or, where it
/// asks for that, in the normalized text by its normalized bytes. Neither an
/// empty token is looked for nor a single byte that is the token anyway.
pub proof fn law_added_tokens_are_sought(
    r: backtracking::Rules,
    n: Normalizer,
    tokens: Seq<AddedView>,
    t: AddedView,
)
    requires
        tokens.len() < u32::MAX,
    ensures
        ({
            let k = tokens.len() as int;
            let raw = tokenizer::raw_patterns(r, tokens.push(t), k + 1);
            let norm = tokenizer::norm_patterns(r, n, tokens.push(t), k + 1);
            let raw0 = tokenizer::raw_patterns(r, tokens, k);
            let norm0 = tokenizer::norm_patterns(r, n, tokens, k);
            let form = n.normal_form(decode_utf8(t.bytes));
            &&& t.bytes.len() > 1 && !t.normalized ==> raw == raw0.push((t.bytes, k as u32)) && norm
                == norm0
            &&& t.bytes.len() > 1 && t.normalized && valid_utf8(t.bytes) && form.len() > 0 ==> raw
                == raw0 && norm == norm0.push((text::utf8(form), k as u32))
            &&& t.bytes.len() == 0 ==> raw == raw0 && norm == norm0
            &&& t.bytes.len() == 1 && backtracking::is_token(r.vocab, t.bytes) && backtracking::bpe(
                r,
                t.bytes,
            ) == seq![t.id] ==> raw == raw0 && norm == norm0
        }),
{
    lemma_patterns_front(r, n, tokens, t, tokens.len() as int);
}

proof fn lemma_patterns_front(
    r: backtracking::Rules,
    n: Normalizer,
    tokens: Seq<AddedView>,
    t: AddedView,
    i: int,
)
    requires
        0 <= i <= tokens.len(),
    ensures
        tokenizer::raw_patterns(r, tokens.push(t), i) == tokenizer::raw_patterns(r, tokens, i),
        tokenizer::norm_patterns(r, n, tokens.push(t), i) == tokenizer::norm_patterns(
            r,
            n,
            tokens,
            i,
        ),
    decreases i,
{
    if i > 0 {
        lemma_patterns_front(r, n, tokens, t, i - 1);
    }
}

/// A text in which no added token is found is encoded as without any, where
/// nothing is looked for in its normalized form.
pub proof fn law_text_without_added_tokens(
    p: Pipeline,
    patterns: Seq<automaton::Pattern>,
    s: Seq<char>,
)
    requires
        p.raw == Some(patterns),
        p.norm is None,
        p.pretok is Some,
        s.len() > 0,
        automaton::matches_in(patterns, text::utf8(s)).len() == 0,
    ensures
        model::raw_tokens(p, s, false) == model::plain_tokens(p, s),
{
    let b = text::utf8(s);
    let l = b.len() as int;
    pieces::lemma_at(seq![], s);
    assert(Seq::<char>::empty() + s =~= s);
    assert(text::utf8(Seq::<char>::empty()) =~= Seq::<u8>::empty());
    assert(b.subrange(0, l) =~= b);
    encode_utf8_decode_utf8(s);
    let one = seq![(None::<int>, 0int, l)];
    assert(model::raw_parts(p, b) == one);
    assert(one.drop_last() =~= Seq::empty());
    assert(one.last() == (None::<int>, 0int, l));
    reveal_with_fuel(model::raw_parts_tokens, 2);
    assert(model::raw_parts_tokens(p, b, one, false) =~= model::plain_tokens(p, s));
}

} // verus!
