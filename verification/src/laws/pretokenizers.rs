//! What tells the pretokenizers apart: whole texts, and the pieces that each
//! of the pretokenizers makes of them.
use crate::laws::pieces;
use crate::laws::pieces::{
    all, capital, caseless, contraction, digit, mark, one_piece, punct, small,
};
use crate::pretok::Pretokenizer;
use crate::pretokie::bert;
use crate::pretokie::config::{
    ContractionCase, ContractionMode, DigitMode, LetterMode, PretokConfig, PunctPrefixMode,
    PunctTrailing,
};
use crate::pretokie::configs;
use crate::pretokie::configs::{
    Cl100kConfig, DeepSeekConfig, Gpt2Config, O200kConfig, QwenConfig, SmolLMConfig, VoyageConfig,
};
use crate::pretokie::rules;
use crate::pretokie::util;
use crate::text;
use vstd::prelude::*;
use vstd::utf8::*;

verus! {

/// A text is one piece.
pub open spec fn whole(p: Pretokenizer, s: Seq<char>) -> bool {
    p.spans(text::utf8(s)) == seq![(0int, text::utf8(s).len() as int)]
}

/// A text is these two pieces.
pub open spec fn two(p: Pretokenizer, a: Seq<char>, b: Seq<char>) -> bool {
    p.spans(text::utf8(a + b)) == seq![
        (0int, text::utf8(a).len() as int),
        (text::utf8(a).len() as int, text::utf8(a + b).len() as int),
    ]
}

proof fn lemma_step<C: PretokConfig>(x: Seq<char>, w: Seq<char>, y: Seq<char>)
    requires
        w.len() > 0,
        one_piece::<C>(x, w, y),
    ensures
        ({
            let b = text::utf8(x + w + y);
            let p = text::utf8(x).len() as int;
            let e = text::utf8(x + w).len() as int;
            rules::spans::<C>(b, p) == seq![(p, e)] + rules::spans::<C>(b, e)
        }),
{
    let b = text::utf8(x + w + y);
    text::lemma_utf8_concat(x, w);
    text::lemma_utf8_concat(x + w, y);
    encode_utf8_first_scalar(w);
}

proof fn lemma_whole<C: PretokConfig>(w: Seq<char>)
    requires
        w.len() > 0,
        one_piece::<C>(seq![], w, seq![]),
    ensures
        rules::spans::<C>(text::utf8(w), 0) == seq![(0int, text::utf8(w).len() as int)],
{
    let e = Seq::<char>::empty();
    lemma_step::<C>(e, w, e);
    assert(e + w + e =~= w);
    assert(e + w =~= w);
    assert(text::utf8(e) =~= Seq::<u8>::empty());
    assert(rules::spans::<C>(text::utf8(w), 0) =~= seq![(0int, text::utf8(w).len() as int)]);
}

proof fn lemma_two<C: PretokConfig>(a: Seq<char>, b: Seq<char>)
    requires
        a.len() > 0,
        b.len() > 0,
        one_piece::<C>(seq![], a, b),
        one_piece::<C>(a, b, seq![]),
    ensures
        rules::spans::<C>(text::utf8(a + b), 0) == seq![
            (0int, text::utf8(a).len() as int),
            (text::utf8(a).len() as int, text::utf8(a + b).len() as int),
        ],
{
    let e = Seq::<char>::empty();
    lemma_step::<C>(e, a, b);
    lemma_step::<C>(a, b, e);
    assert(e + a + b =~= a + b);
    assert(e + a =~= a);
    assert(a + b + e =~= a + b);
    assert(text::utf8(e) =~= Seq::<u8>::empty());
    let l = text::utf8(a + b).len() as int;
    assert(rules::spans::<C>(text::utf8(a + b), l) =~= Seq::empty());
    assert(rules::spans::<C>(text::utf8(a + b), 0) =~= seq![
        (0int, text::utf8(a).len() as int),
        (text::utf8(a).len() as int, l),
    ]);
}

// ---- words ----

/// A word of small letters, of any script, is one piece.
pub proof fn law_small_words(p: Pretokenizer, s: Seq<char>)
    requires
        p != Pretokenizer::Bert,
        s.len() > 0,
        all(s, |c: char| small(c)),
    ensures
        whole(p, s),
{
    lemma_small::<Gpt2Config>(s);
    lemma_small::<Cl100kConfig>(s);
    lemma_small::<O200kConfig>(s);
    lemma_small::<VoyageConfig>(s);
    lemma_small::<SmolLMConfig>(s);
    lemma_small::<DeepSeekConfig>(s);
    lemma_small::<QwenConfig>(s);
}

proof fn lemma_small<C: PretokConfig>(s: Seq<char>)
    requires
        s.len() > 0,
        all(s, |c: char| small(c)),
    ensures
        rules::spans::<C>(text::utf8(s), 0) == seq![(0int, text::utf8(s).len() as int)],
{
    pieces::law_small_word_is_one_piece::<C>(seq![], s, seq![]);
    lemma_whole::<C>(s);
}

/// A word of letters without case is one piece.
pub proof fn law_caseless_words(p: Pretokenizer, s: Seq<char>)
    requires
        p != Pretokenizer::Bert,
        s.len() > 0,
        all(s, |c: char| caseless(c)),
    ensures
        whole(p, s),
{
    lemma_caseless::<Gpt2Config>(s);
    lemma_caseless::<Cl100kConfig>(s);
    lemma_caseless::<O200kConfig>(s);
    lemma_caseless::<VoyageConfig>(s);
    lemma_caseless::<SmolLMConfig>(s);
    lemma_caseless::<DeepSeekConfig>(s);
    lemma_caseless::<QwenConfig>(s);
}

proof fn lemma_caseless<C: PretokConfig>(s: Seq<char>)
    requires
        s.len() > 0,
        all(s, |c: char| caseless(c)),
    ensures
        rules::spans::<C>(text::utf8(s), 0) == seq![(0int, text::utf8(s).len() as int)],
{
    pieces::law_caseless_word_is_one_piece::<C>(seq![], s, seq![]);
    lemma_whole::<C>(s);
}

/// A word that starts with capitals is one piece.
pub proof fn law_capital_words(p: Pretokenizer, u: Seq<char>, l: Seq<char>)
    requires
        p != Pretokenizer::Bert,
        u.len() > 0,
        all(u, |c: char| capital(c)),
        all(l, |c: char| small(c)),
    ensures
        whole(p, u + l),
{
    lemma_capital::<Gpt2Config>(u, l);
    lemma_capital::<Cl100kConfig>(u, l);
    lemma_capital::<O200kConfig>(u, l);
    lemma_capital::<VoyageConfig>(u, l);
    lemma_capital::<SmolLMConfig>(u, l);
    lemma_capital::<DeepSeekConfig>(u, l);
    lemma_capital::<QwenConfig>(u, l);
}

proof fn lemma_capital<C: PretokConfig>(u: Seq<char>, l: Seq<char>)
    requires
        u.len() > 0,
        all(u, |c: char| capital(c)),
        all(l, |c: char| small(c)),
    ensures
        rules::spans::<C>(text::utf8(u + l), 0) == seq![(0int, text::utf8(u + l).len() as int)],
{
    let f = |c: char| capital(c);
    let g = |c: char| small(c);
    if C::LETTER_MODE == LetterMode::CamelCase {
        assert forall|i: int| 0 <= i < u.len() implies (capital(#[trigger] u[i]) || caseless(
            u[i],
        )) by {
            assert(f(u[i]));
        }
        pieces::law_capitals_then_small_are_one_piece::<C>(seq![], u, l, seq![]);
    } else {
        assert forall|i: int| 0 <= i < (u + l).len() implies pieces::letter(
            #[trigger] (u + l)[i],
        ) by {
            if i < u.len() {
                assert(f(u[i]));
            } else {
                assert(g(l[i - u.len()]));
            }
        }
        pieces::law_word_is_one_piece::<C>(seq![], u + l, seq![]);
    }
    lemma_whole::<C>(u + l);
}

/// Where a capital follows small letters, O200K starts a piece, and no other
/// pretokenizer does.
pub proof fn law_capital_inside_a_word(p: Pretokenizer, a: Seq<char>, u: Seq<char>)
    requires
        p != Pretokenizer::Bert,
        a.len() > 0,
        all(a, |c: char| small(c)),
        u.len() > 0,
        all(u, |c: char| capital(c)),
    ensures
        p == Pretokenizer::O200k ==> two(p, a, u),
        p != Pretokenizer::O200k ==> whole(p, a + u),
{
    configs::law_gpt2_config();
    configs::law_cl100k_config();
    configs::law_o200k_config();
    configs::law_voyage_config();
    configs::law_smollm_config();
    configs::law_deepseek_config();
    configs::law_qwen_config();
    let f = |c: char| capital(c);
    let g = |c: char| small(c);
    let e = Seq::<char>::empty();
    assert forall|i: int| 0 <= i < u.len() implies (capital(#[trigger] u[i]) || caseless(u[i])) by {
        assert(f(u[i]));
    }
    assert(f(u[0]));
    pieces::law_capitals_then_small_are_one_piece::<O200kConfig>(e, e, a, u);
    assert(e + a =~= a);
    pieces::law_capitals_then_small_are_one_piece::<O200kConfig>(a, u, e, e);
    assert(u + e =~= u);
    lemma_two::<O200kConfig>(a, u);
    assert forall|i: int| 0 <= i < (a + u).len() implies pieces::letter(#[trigger] (a + u)[i]) by {
        if i < a.len() {
            assert(g(a[i]));
        } else {
            assert(f(u[i - a.len()]));
        }
    }
    lemma_plain::<Gpt2Config>(a + u);
    lemma_plain::<Cl100kConfig>(a + u);
    lemma_plain::<VoyageConfig>(a + u);
    lemma_plain::<SmolLMConfig>(a + u);
    lemma_plain::<DeepSeekConfig>(a + u);
    lemma_plain::<QwenConfig>(a + u);
}

proof fn lemma_plain<C: PretokConfig>(s: Seq<char>)
    requires
        C::LETTER_MODE != LetterMode::CamelCase,
        s.len() > 0,
        all(s, |c: char| pieces::letter(c)),
    ensures
        rules::spans::<C>(text::utf8(s), 0) == seq![(0int, text::utf8(s).len() as int)],
{
    pieces::law_word_is_one_piece::<C>(seq![], s, seq![]);
    lemma_whole::<C>(s);
}

/// Two words with a space between them are two pieces; the space goes with
/// the second.
pub proof fn law_two_words(p: Pretokenizer, a: Seq<char>, b: Seq<char>)
    requires
        p != Pretokenizer::Bert,
        a.len() > 0,
        all(a, |c: char| small(c)),
        b.len() > 0,
        all(b, |c: char| small(c)),
    ensures
        two(p, a, seq![' '] + b),
{
    configs::law_gpt2_config();
    configs::law_cl100k_config();
    configs::law_o200k_config();
    configs::law_voyage_config();
    configs::law_smollm_config();
    configs::law_deepseek_config();
    configs::law_qwen_config();
    lemma_two_words::<Gpt2Config>(a, b);
    lemma_two_words::<Cl100kConfig>(a, b);
    lemma_two_words::<O200kConfig>(a, b);
    lemma_two_words::<VoyageConfig>(a, b);
    lemma_two_words::<SmolLMConfig>(a, b);
    lemma_two_words::<DeepSeekConfig>(a, b);
    lemma_two_words::<QwenConfig>(a, b);
}

proof fn lemma_two_words<C: PretokConfig>(a: Seq<char>, b: Seq<char>)
    requires
        C::LETTER_MODE == LetterMode::CamelCase ==> C::CONTRACTION_MODE == ContractionMode::Suffix,
        a.len() > 0,
        all(a, |c: char| small(c)),
        b.len() > 0,
        all(b, |c: char| small(c)),
    ensures
        ({
            let t = a + (seq![' '] + b);
            rules::spans::<C>(text::utf8(t), 0) == seq![
                (0int, text::utf8(a).len() as int),
                (text::utf8(a).len() as int, text::utf8(t).len() as int),
            ]
        }),
{
    let g = |c: char| small(c);
    let e = Seq::<char>::empty();
    let s = seq![' '] + b;
    pieces::law_small_word_is_one_piece::<C>(e, a, s);
    pieces::law_small_word_is_one_piece::<C>(a.push(' '), b, e);
    assert(g(b[0]));
    pieces::law_space_belongs_to_the_word::<C>(a, ' ', b);
    assert(a.push(' ') + b + e =~= a + s + e);
    assert(a.push(' ') + b =~= a + s);
    assert(a + s + e =~= a + s);
    text::lemma_utf8_push(a, ' ');
    text::lemma_utf8_ascii(' ');
    lemma_two::<C>(a, s);
}

/// Marks belong to the words of O200K, DeepSeek and Qwen; for the others the
/// word ends in front of them.
pub proof fn law_marks(p: Pretokenizer, a: Seq<char>, m: Seq<char>)
    requires
        p != Pretokenizer::Bert,
        a.len() > 0,
        all(a, |c: char| small(c)),
        m.len() > 0,
        all(m, |c: char| mark(c)),
    ensures
        p == Pretokenizer::O200k || p == Pretokenizer::DeepSeek || p == Pretokenizer::Qwen
            ==> whole(p, a + m),
        p == Pretokenizer::Gpt2 || p == Pretokenizer::Cl100k || p == Pretokenizer::Voyage || p
            == Pretokenizer::SmolLM ==> p.spans(text::utf8(a + m)).len() > 0 && p.spans(
            text::utf8(a + m),
        )[0] == (0int, text::utf8(a).len() as int),
{
    configs::law_gpt2_config();
    configs::law_cl100k_config();
    configs::law_o200k_config();
    configs::law_voyage_config();
    configs::law_smollm_config();
    configs::law_deepseek_config();
    configs::law_qwen_config();
    lemma_marks::<Gpt2Config>(a, m);
    lemma_marks::<Cl100kConfig>(a, m);
    lemma_marks::<O200kConfig>(a, m);
    lemma_marks::<VoyageConfig>(a, m);
    lemma_marks::<SmolLMConfig>(a, m);
    lemma_marks::<DeepSeekConfig>(a, m);
    lemma_marks::<QwenConfig>(a, m);
}

proof fn lemma_marks<C: PretokConfig>(a: Seq<char>, m: Seq<char>)
    requires
        a.len() > 0,
        all(a, |c: char| small(c)),
        m.len() > 0,
        all(m, |c: char| mark(c)),
    ensures
        C::LETTER_MODE != LetterMode::Plain ==> rules::spans::<C>(text::utf8(a + m), 0) == seq![
            (0int, text::utf8(a + m).len() as int),
        ],
        C::LETTER_MODE == LetterMode::Plain ==> rules::spans::<C>(text::utf8(a + m), 0).len() > 0
            && rules::spans::<C>(text::utf8(a + m), 0)[0] == (0int, text::utf8(a).len() as int),
{
    let e = Seq::<char>::empty();
    pieces::law_marks_and_words::<C>(e, a, m, e);
    if C::LETTER_MODE == LetterMode::Plain {
        lemma_step::<C>(e, a, m + e);
        assert(e + a + (m + e) =~= a + m);
        assert(e + a =~= a);
        assert(text::utf8(e) =~= Seq::<u8>::empty());
    } else {
        lemma_whole::<C>(a + m);
    }
}

// ---- numbers ----

/// Digits one by one.
pub open spec fn by_ones(n: nat) -> Seq<(int, int)> {
    Seq::new(n, |i: int| (i, i + 1))
}

/// Digits by threes, from the left.
pub open spec fn by_threes(n: nat) -> Seq<(int, int)> {
    Seq::new(
        (n + 2) / 3,
        |i: int|
            (
                3 * i,
                if 3 * i + 3 <= n {
                    3 * i + 3
                } else {
                    n as int
                },
            ),
    )
}

/// How many digits go into one piece: all for GPT-2; three for CL100K, O200K
/// and DeepSeek; one for Voyage, SmolLM and Qwen.
pub proof fn law_digits(p: Pretokenizer, s: Seq<char>)
    requires
        s.len() > 0,
        all(s, |c: char| digit(c)),
    ensures
        p == Pretokenizer::Gpt2 ==> p.spans(text::utf8(s)) == seq![(0int, s.len() as int)],
        p == Pretokenizer::Cl100k || p == Pretokenizer::O200k || p == Pretokenizer::DeepSeek
            ==> p.spans(text::utf8(s)) == by_threes(s.len()),
        p == Pretokenizer::Voyage || p == Pretokenizer::SmolLM || p == Pretokenizer::Qwen
            ==> p.spans(text::utf8(s)) == by_ones(s.len()),
{
    configs::law_gpt2_config();
    configs::law_cl100k_config();
    configs::law_o200k_config();
    configs::law_voyage_config();
    configs::law_smollm_config();
    configs::law_deepseek_config();
    configs::law_qwen_config();
    let e = Seq::<char>::empty();
    lemma_digit_bytes(s);
    assert(e + s =~= s);
    assert(text::utf8(e) =~= Seq::<u8>::empty());
    pieces::law_numbers::<Gpt2Config>(e, s, e);
    assert(s.take(s.len() as int) =~= s);
    assert(s.skip(s.len() as int) + e =~= e);
    lemma_whole::<Gpt2Config>(s);
    lemma_ones::<VoyageConfig>(e, s);
    lemma_ones::<SmolLMConfig>(e, s);
    lemma_ones::<QwenConfig>(e, s);
    assert(shifted(by_ones(s.len()), 0) =~= by_ones(s.len()));
    lemma_threes::<Cl100kConfig>(e, s);
    lemma_threes::<O200kConfig>(e, s);
    lemma_threes::<DeepSeekConfig>(e, s);
    assert(shifted(by_threes(s.len()), 0) =~= by_threes(s.len()));
}

/// Pieces, further behind in the text.
spec fn shifted(v: Seq<(int, int)>, n: int) -> Seq<(int, int)> {
    Seq::new(v.len(), |i: int| (v[i].0 + n, v[i].1 + n))
}

proof fn lemma_digit_bytes(s: Seq<char>)
    requires
        all(s, |c: char| digit(c)),
    ensures
        text::utf8(s).len() == s.len(),
{
    let f = |c: char| digit(c);
    assert forall|i: int| 0 <= i < s.len() implies 0 <= #[trigger] s[i] as nat <= 0x7f by {
        assert(f(s[i]));
    }
    assert(is_ascii_chars(s));
    is_ascii_chars_encode_utf8(s);
}

/// A number, after its first pieces.
proof fn lemma_number_step<C: PretokConfig>(x: Seq<char>, s: Seq<char>, n: int)
    requires
        s.len() > 0,
        all(s, |c: char| digit(c)),
        n == pieces::taken_numbers(C::DIGIT_MODE, s.len()),
    ensures
        0 < n <= s.len(),
        all(s.skip(n), |c: char| digit(c)),
        ({
            let b = text::utf8(x + s);
            let p = text::utf8(x).len() as int;
            &&& b == text::utf8(x + s.take(n) + s.skip(n))
            &&& text::utf8(x + s.take(n)).len() == p + n
            &&& rules::spans::<C>(b, p) == seq![(p, p + n)] + rules::spans::<C>(b, p + n)
        }),
{
    let f = |c: char| digit(c);
    let e = Seq::<char>::empty();
    assert forall|i: int| 0 <= i < s.len() implies digit(#[trigger] s[i]) || pieces::far_number(
        s[i],
    ) by {
        assert(f(s[i]));
    }
    pieces::law_numbers::<C>(x, s, e);
    assert(s.skip(n) + e =~= s.skip(n));
    assert(x + s.take(n) + s.skip(n) =~= x + s);
    assert forall|i: int| 0 <= i < s.take(n).len() implies digit(#[trigger] s.take(n)[i]) by {
        assert(f(s[i]));
    }
    assert forall|i: int| 0 <= i < s.skip(n).len() implies digit(#[trigger] s.skip(n)[i]) by {
        assert(f(s[i + n]));
    }
    lemma_digit_bytes(s.take(n));
    text::lemma_utf8_concat(x, s.take(n));
    lemma_step::<C>(x, s.take(n), s.skip(n));
}

proof fn lemma_ones<C: PretokConfig>(x: Seq<char>, s: Seq<char>)
    requires
        C::DIGIT_MODE == DigitMode::Single,
        all(s, |c: char| digit(c)),
    ensures
        rules::spans::<C>(text::utf8(x + s), text::utf8(x).len() as int) == shifted(
            by_ones(s.len()),
            text::utf8(x).len() as int,
        ),
    decreases s.len(),
{
    let p = text::utf8(x).len() as int;
    if s.len() == 0 {
        assert(x + s =~= x);
        assert(shifted(by_ones(0), p) =~= Seq::empty());
    } else {
        lemma_number_step::<C>(x, s, 1);
        lemma_ones::<C>(x + s.take(1), s.skip(1));
        let rest = shifted(by_ones(s.skip(1).len()), p + 1);
        assert(seq![(p, p + 1)] + rest =~= shifted(by_ones(s.len()), p));
    }
}

proof fn lemma_threes<C: PretokConfig>(x: Seq<char>, s: Seq<char>)
    requires
        C::DIGIT_MODE == DigitMode::Chunked3,
        all(s, |c: char| digit(c)),
    ensures
        rules::spans::<C>(text::utf8(x + s), text::utf8(x).len() as int) == shifted(
            by_threes(s.len()),
            text::utf8(x).len() as int,
        ),
    decreases s.len(),
{
    let p = text::utf8(x).len() as int;
    if s.len() == 0 {
        assert(x + s =~= x);
        assert(shifted(by_threes(0), p) =~= Seq::empty());
    } else {
        let n = if s.len() > 3 {
            3int
        } else {
            s.len() as int
        };
        lemma_number_step::<C>(x, s, n);
        lemma_threes::<C>(x + s.take(n), s.skip(n));
        let rest = shifted(by_threes(s.skip(n).len()), p + n);
        assert(seq![(p, p + n)] + rest =~= shifted(by_threes(s.len()), p));
    }
}

/// A space in front of a number belongs to it for GPT-2; for the others it is
/// a piece of its own.
pub proof fn law_space_and_digit(p: Pretokenizer, c: char)
    requires
        p != Pretokenizer::Bert,
        digit(c),
    ensures
        p == Pretokenizer::Gpt2 ==> whole(p, seq![' ', c]),
        p != Pretokenizer::Gpt2 ==> two(p, seq![' '], seq![c]),
{
    configs::law_gpt2_config();
    configs::law_cl100k_config();
    configs::law_o200k_config();
    configs::law_voyage_config();
    configs::law_smollm_config();
    configs::law_deepseek_config();
    configs::law_qwen_config();
    lemma_space_and_digit::<Gpt2Config>(c);
    lemma_space_and_digit::<Cl100kConfig>(c);
    lemma_space_and_digit::<O200kConfig>(c);
    lemma_space_and_digit::<VoyageConfig>(c);
    lemma_space_and_digit::<SmolLMConfig>(c);
    lemma_space_and_digit::<DeepSeekConfig>(c);
    lemma_space_and_digit::<QwenConfig>(c);
    assert(seq![' '] + seq![c] =~= seq![' ', c]);
}

proof fn lemma_space_and_digit<C: PretokConfig>(c: char)
    requires
        digit(c),
    ensures
        C::SPACE_PREFIXES_DIGITS ==> rules::spans::<C>(text::utf8(seq![' ', c]), 0) == seq![
            (0int, text::utf8(seq![' ', c]).len() as int),
        ],
        !C::SPACE_PREFIXES_DIGITS ==> rules::spans::<C>(text::utf8(seq![' ', c]), 0) == seq![
            (0int, text::utf8(seq![' ']).len() as int),
            (text::utf8(seq![' ']).len() as int, text::utf8(seq![' ', c]).len() as int),
        ],
{
    let e = Seq::<char>::empty();
    let s = seq![' '];
    let d = seq![c];
    assert(s + d =~= seq![' ', c]);
    assert(e.push(' ') + d =~= s + d);
    assert(text::utf8(e) =~= Seq::<u8>::empty());
    pieces::law_space_in_front_of_a_number::<C>(e, d);
    pieces::law_numbers::<C>(s, d, e);
    assert(d.take(1) =~= d);
    assert(d.skip(1) + e =~= e);
    text::lemma_utf8_ascii(' ');
    assert(s + d + e =~= s + d);
    assert(e + s =~= s);
    assert(e + s + d =~= s + d);
    assert(e + (s + d) + e =~= s + d);
    assert(e + (s + d) =~= s + d);
    if C::SPACE_PREFIXES_DIGITS {
        lemma_whole::<C>(s + d);
    } else {
        lemma_two::<C>(s, d);
    }
}

// ---- contractions ----

/// A word and its contraction: one piece for O200K; two for GPT-2 and SmolLM,
/// which know small letters only; and two for CL100K, Voyage and Qwen, in
/// either case.
pub proof fn law_contractions(p: Pretokenizer, w: Seq<char>, t: Seq<char>)
    requires
        w.len() > 0,
        all(w, |c: char| small(c)),
    ensures
        contraction(t, true) && p == Pretokenizer::O200k ==> whole(p, w + t),
        contraction(t, true) && (p == Pretokenizer::Cl100k || p == Pretokenizer::Voyage || p
            == Pretokenizer::Qwen) ==> two(p, w, t),
        contraction(t, false) && (p == Pretokenizer::Gpt2 || p == Pretokenizer::SmolLM) ==> two(
            p,
            w,
            t,
        ),
{
    configs::law_gpt2_config();
    configs::law_cl100k_config();
    configs::law_o200k_config();
    configs::law_voyage_config();
    configs::law_smollm_config();
    configs::law_deepseek_config();
    configs::law_qwen_config();
    let e = Seq::<char>::empty();
    if contraction(t, true) {
        pieces::law_contraction_belongs_to_the_word::<O200kConfig>(e, w, t, e);
        lemma_whole::<O200kConfig>(w + t);
        lemma_alone::<Cl100kConfig>(w, t);
        lemma_alone::<VoyageConfig>(w, t);
        lemma_alone::<QwenConfig>(w, t);
    }
    if contraction(t, false) {
        lemma_alone::<Gpt2Config>(w, t);
        lemma_alone::<SmolLMConfig>(w, t);
    }
}

proof fn lemma_alone<C: PretokConfig>(w: Seq<char>, t: Seq<char>)
    requires
        C::CONTRACTION_MODE == ContractionMode::Standalone,
        contraction(t, C::CONTRACTION_CASE == ContractionCase::Insensitive),
        w.len() > 0,
        all(w, |c: char| small(c)),
    ensures
        rules::spans::<C>(text::utf8(w + t), 0) == seq![
            (0int, text::utf8(w).len() as int),
            (text::utf8(w).len() as int, text::utf8(w + t).len() as int),
        ],
{
    let e = Seq::<char>::empty();
    pieces::law_apostrophe_parts_words::<C>(e, w, t);
    pieces::law_contraction_stands_alone::<C>(w, t, e);
    lemma_two::<C>(w, t);
}

/// Where case matters, capitals behind an apostrophe are no contraction.
pub proof fn law_no_contraction_of_capitals(p: Pretokenizer, w: Seq<char>)
    requires
        p == Pretokenizer::Gpt2 || p == Pretokenizer::SmolLM,
        w.len() > 0,
        all(w, |c: char| 'A' <= c <= 'Z'),
    ensures
        whole(p, seq!['\''] + w),
{
    configs::law_gpt2_config();
    configs::law_cl100k_config();
    configs::law_o200k_config();
    configs::law_voyage_config();
    configs::law_smollm_config();
    configs::law_deepseek_config();
    configs::law_qwen_config();
    let e = Seq::<char>::empty();
    pieces::law_capitals_are_no_contraction::<Gpt2Config>(e, w, e);
    pieces::law_capitals_are_no_contraction::<SmolLMConfig>(e, w, e);
    lemma_whole::<Gpt2Config>(seq!['\''] + w);
    lemma_whole::<SmolLMConfig>(seq!['\''] + w);
}

// ---- punctuation ----

/// A punctuation character in front of a word: a piece of its own for GPT-2
/// and SmolLM, the start of the word for the others.
pub proof fn law_punctuation_and_word(p: Pretokenizer, c: char, w: Seq<char>)
    requires
        p != Pretokenizer::Bert,
        punct(c),
        c != '\'',
        w.len() > 0,
        all(w, |c: char| 'a' <= c <= 'z'),
    ensures
        p == Pretokenizer::Gpt2 || p == Pretokenizer::SmolLM ==> two(p, seq![c], w),
        p != Pretokenizer::Gpt2 && p != Pretokenizer::SmolLM ==> whole(p, seq![c] + w),
{
    configs::law_gpt2_config();
    configs::law_cl100k_config();
    configs::law_o200k_config();
    configs::law_voyage_config();
    configs::law_smollm_config();
    configs::law_deepseek_config();
    configs::law_qwen_config();
    lemma_punct_word::<Gpt2Config>(c, w);
    lemma_punct_word::<Cl100kConfig>(c, w);
    lemma_punct_word::<O200kConfig>(c, w);
    lemma_punct_word::<VoyageConfig>(c, w);
    lemma_punct_word::<SmolLMConfig>(c, w);
    lemma_punct_word::<DeepSeekConfig>(c, w);
    lemma_punct_word::<QwenConfig>(c, w);
}

proof fn lemma_punct_word<C: PretokConfig>(c: char, w: Seq<char>)
    requires
        C::LETTER_MODE == LetterMode::CamelCase ==> C::CONTRACTION_MODE == ContractionMode::Suffix
            && C::PUNCT_PREFIX_MODE == PunctPrefixMode::Any,
        punct(c),
        c != '\'',
        w.len() > 0,
        all(w, |c: char| 'a' <= c <= 'z'),
    ensures
        C::PUNCT_PREFIX_MODE == PunctPrefixMode::SpaceOnly ==> rules::spans::<C>(
            text::utf8(seq![c] + w),
            0,
        ) == seq![
            (0int, text::utf8(seq![c]).len() as int),
            (text::utf8(seq![c]).len() as int, text::utf8(seq![c] + w).len() as int),
        ],
        C::PUNCT_PREFIX_MODE != PunctPrefixMode::SpaceOnly ==> rules::spans::<C>(
            text::utf8(seq![c] + w),
            0,
        ) == seq![(0int, text::utf8(seq![c] + w).len() as int)],
{
    let f = |c: char| 'a' <= c <= 'z';
    let e = Seq::<char>::empty();
    let s = seq![c];
    assert forall|i: int| 0 <= i < w.len() implies small(#[trigger] w[i]) by {
        assert(f(w[i]));
    }
    assert forall|i: int| 0 <= i < w.len() implies ('a' <= #[trigger] w[i] <= 'z' || 'A' <= w[i]
        <= 'Z') by {
        assert(f(w[i]));
    }
    assert(small(w[0]));
    pieces::law_small_word_is_one_piece::<C>(s, w, e);
    pieces::law_punctuation_in_front_of_a_word::<C>(e, c, w);
    assert(e.push(c) + w =~= s + w);
    assert(text::utf8(e) =~= Seq::<u8>::empty());
    text::lemma_utf8_ascii(c);
    assert(s + w + e =~= s + w);
    assert(e + s =~= s);
    assert(e + s + w =~= s + w);
    assert(e + (s + w) + e =~= s + w);
    assert(e + (s + w) =~= s + w);
    match C::PUNCT_PREFIX_MODE {
        PunctPrefixMode::SpaceOnly => lemma_two::<C>(s, w),
        PunctPrefixMode::Any => lemma_whole::<C>(s + w),
        PunctPrefixMode::AsciiOnly => {
            pieces::law_ascii_word_behind_punctuation::<C>(e, c, w, e);
            lemma_whole::<C>(s + w);
        },
    }
}

/// Newlines behind punctuation belong to it, but for GPT-2 and SmolLM.
pub proof fn law_newlines_behind_punctuation(p: Pretokenizer, w: Seq<char>, n: Seq<char>)
    requires
        p != Pretokenizer::Bert,
        w.len() > 0,
        all(w, |c: char| punct(c)),
        w[0] != '\'',
        n.len() > 0,
        all(n, |c: char| c == '\n' || c == '\r'),
    ensures
        p == Pretokenizer::Gpt2 || p == Pretokenizer::SmolLM ==> p.spans(text::utf8(w + n)).len()
            > 0 && p.spans(text::utf8(w + n))[0] == (0int, text::utf8(w).len() as int),
        p != Pretokenizer::Gpt2 && p != Pretokenizer::SmolLM ==> whole(p, w + n),
{
    configs::law_gpt2_config();
    configs::law_cl100k_config();
    configs::law_o200k_config();
    configs::law_voyage_config();
    configs::law_smollm_config();
    configs::law_deepseek_config();
    configs::law_qwen_config();
    lemma_punct_newlines::<Gpt2Config>(w, n);
    lemma_punct_newlines::<Cl100kConfig>(w, n);
    lemma_punct_newlines::<O200kConfig>(w, n);
    lemma_punct_newlines::<VoyageConfig>(w, n);
    lemma_punct_newlines::<SmolLMConfig>(w, n);
    lemma_punct_newlines::<DeepSeekConfig>(w, n);
    lemma_punct_newlines::<QwenConfig>(w, n);
}

proof fn lemma_punct_newlines<C: PretokConfig>(w: Seq<char>, n: Seq<char>)
    requires
        w.len() > 0,
        all(w, |c: char| punct(c)),
        w[0] != '\'',
        n.len() > 0,
        all(n, |c: char| c == '\n' || c == '\r'),
    ensures
        C::PUNCT_TRAILING == PunctTrailing::Absent ==> rules::spans::<C>(
            text::utf8(w + n),
            0,
        ).len() > 0 && rules::spans::<C>(text::utf8(w + n), 0)[0] == (
            0int,
            text::utf8(w).len() as int,
        ),
        C::PUNCT_TRAILING != PunctTrailing::Absent ==> rules::spans::<C>(text::utf8(w + n), 0)
            == seq![(0int, text::utf8(w + n).len() as int)],
{
    let e = Seq::<char>::empty();
    pieces::law_punctuation::<C>(e, w, n, e);
    if C::PUNCT_TRAILING == PunctTrailing::Absent {
        lemma_step::<C>(e, w, n + e);
        assert(e + w + (n + e) =~= w + n);
        assert(e + w =~= w);
        assert(text::utf8(e) =~= Seq::<u8>::empty());
    } else {
        lemma_whole::<C>(w + n);
    }
}

// ---- BERT ----

/// A character that goes on with a word of BERT.
pub open spec fn bert_word_char(c: char) -> bool {
    &&& !util::char_is_whitespace(c)
    &&& !punct(c)
    &&& util::general_category(c)[0] != 'P'
}

/// BERT drops whitespace, makes a piece of each punctuation character and of
/// each word between: the text behind them goes on as if it stood alone.
pub proof fn law_bert_pieces(x: Seq<char>, w: Seq<char>, y: Seq<char>, c: char)
    requires
        w.len() > 0,
        all(w, |c: char| bert_word_char(c)),
    ensures
        util::char_is_whitespace(c) ==> bert::spans(
            text::utf8(x.push(c) + y),
            text::utf8(x).len() as int,
        ) == bert::spans(text::utf8(x.push(c) + y), text::utf8(x.push(c)).len() as int),
        !util::char_is_whitespace(c) && (punct(c) || util::general_category(c)[0] == 'P')
            ==> bert::spans(text::utf8(x.push(c) + y), text::utf8(x).len() as int) == seq![
            (text::utf8(x).len() as int, text::utf8(x.push(c)).len() as int),
        ] + bert::spans(text::utf8(x.push(c) + y), text::utf8(x.push(c)).len() as int),
        y.len() == 0 || !bert_word_char(y[0]) ==> bert::spans(
            text::utf8(x + w + y),
            text::utf8(x).len() as int,
        ) == seq![(text::utf8(x).len() as int, text::utf8(x + w).len() as int)] + bert::spans(
            text::utf8(x + w + y),
            text::utf8(x + w).len() as int,
        ),
{
    let cy = seq![c] + y;
    assert(x + cy =~= x.push(c) + y);
    pieces::lemma_at(x, cy);
    let b = text::utf8(x + cy);
    let p = text::utf8(x).len() as int;
    util::lemma_after(b, p);
    if y.len() == 0 || !bert_word_char(y[0]) {
        let g = |c: char| bert_word_char(c);
        assert(g(w[0]));
        assert(x + w + y =~= x + (w + y));
        pieces::lemma_at(x, w + y);
        assert((w + y)[0] == w[0]);
        lemma_bert_word(x, w, y);
        text::lemma_utf8_concat(x + w, y);
        text::lemma_utf8_concat(x, w);
        encode_utf8_first_scalar(w);
    }
}

proof fn lemma_bert_word(x: Seq<char>, w: Seq<char>, y: Seq<char>)
    requires
        all(w, |c: char| bert_word_char(c)),
        y.len() == 0 || !bert_word_char(y[0]),
    ensures
        bert::word_end(text::utf8(x + w + y), text::utf8(x).len() as int) == text::utf8(
            x + w,
        ).len(),
    decreases w.len(),
{
    let b = text::utf8(x + w + y);
    let p = text::utf8(x).len() as int;
    assert(x + w + y =~= x + (w + y));
    pieces::lemma_at(x, w + y);
    if w.len() == 0 {
        assert(w + y =~= y);
        assert(x + w =~= x);
    } else {
        let g = |c: char| bert_word_char(c);
        assert(g(w[0]));
        let x2 = x.push(w[0]);
        let w2 = w.drop_first();
        assert forall|i: int| 0 <= i < w2.len() implies bert_word_char(#[trigger] w2[i]) by {
            assert(g(w[i + 1]));
        }
        assert(x2 + w2 =~= x + w);
        assert(x2 + w2 + y =~= x + w + y);
        util::lemma_after(b, p);
        lemma_bert_word(x2, w2, y);
    }
}

/// For BERT, two words with whitespace between them are two pieces, and the
/// whitespace is in neither.
pub proof fn law_bert_words(a: Seq<char>, c: char, b: Seq<char>)
    requires
        a.len() > 0,
        all(a, |c: char| bert_word_char(c)),
        util::char_is_whitespace(c),
        b.len() > 0,
        all(b, |c: char| bert_word_char(c)),
    ensures
        Pretokenizer::Bert.spans(text::utf8(a.push(c) + b)) == seq![
            (0int, text::utf8(a).len() as int),
            (text::utf8(a.push(c)).len() as int, text::utf8(a.push(c) + b).len() as int),
        ],
{
    let e = Seq::<char>::empty();
    let t = a.push(c) + b;
    assert(text::utf8(e) =~= Seq::<u8>::empty());
    assert(e + a =~= a);
    assert(e + a + (seq![c] + b) =~= t);
    law_bert_pieces(e, a, seq![c] + b, c);
    law_bert_pieces(a, a, b, c);
    law_bert_pieces(a.push(c), b, e, c);
    assert(a.push(c) + b + e =~= t);
    let l = text::utf8(t).len() as int;
    assert(bert::spans(text::utf8(t), l) =~= Seq::empty());
    assert(Pretokenizer::Bert.spans(text::utf8(t)) =~= seq![
        (0int, text::utf8(a).len() as int),
        (text::utf8(a.push(c)).len() as int, l),
    ]);
}

} // verus!
