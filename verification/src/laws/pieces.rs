//! How texts fall into pieces, told by their characters: words, numbers,
//! punctuation, contractions and the whitespace between them.
//!
//! A text is written here as what stands in front, the characters of one
//! piece, and what follows. Characters are named by their code points and
//! their general category.
use crate::pretokie::config::{
    ContractionCase, ContractionMode, DigitMode, LetterMode, PretokConfig, PunctClass,
    PunctPrefixMode, PunctTrailing, WsException, WsPattern,
};
use crate::pretokie::rules;
use crate::pretokie::rules::Class;
use crate::pretokie::util;
use crate::text;
use vstd::prelude::*;
use vstd::utf8::*;

verus! {

// ---- characters ----

/// A lower-case letter, `\p{Ll}`.
pub open spec fn small(c: char) -> bool {
    ||| 'a' <= c <= 'z'
    ||| {
        &&& c as u32 >= 0x80
        &&& util::general_category(c) == seq!['L', 'l']
        &&& util::char_is_lowercase(c)
        &&& !util::char_is_uppercase(c)
        &&& util::char_is_alphabetic(c)
    }
}

/// An upper-case letter, `\p{Lu}`.
pub open spec fn capital(c: char) -> bool {
    ||| 'A' <= c <= 'Z'
    ||| {
        &&& c as u32 >= 0x80
        &&& util::general_category(c) == seq!['L', 'u']
        &&& !util::char_is_lowercase(c)
        &&& util::char_is_uppercase(c)
        &&& util::char_is_alphabetic(c)
    }
}

/// A letter without case, `\p{Lo}`, such as those of Chinese and Arabic.
pub open spec fn caseless(c: char) -> bool {
    &&& c as u32 >= 0x80
    &&& util::general_category(c) == seq!['L', 'o']
    &&& !util::char_is_lowercase(c)
    &&& !util::char_is_uppercase(c)
    &&& util::char_is_alphabetic(c)
}

/// Any letter.
pub open spec fn letter(c: char) -> bool {
    small(c) || capital(c) || caseless(c)
}

/// A combining mark, `\p{M}`.
pub open spec fn mark(c: char) -> bool {
    &&& c as u32 >= 0x80
    &&& util::general_category(c)[0] == 'M'
}

/// A digit of ASCII.
pub open spec fn digit(c: char) -> bool {
    '0' <= c <= '9'
}

/// A punctuation character of ASCII.
pub open spec fn punct(c: char) -> bool {
    let x = c as u32;
    0x21 <= x <= 0x2f || 0x3a <= x <= 0x40 || 0x5b <= x <= 0x60 || 0x7b <= x <= 0x7e
}

/// All characters of a text are of this kind.
pub open spec fn all(w: Seq<char>, f: spec_fn(char) -> bool) -> bool {
    forall|i: int| 0 <= i < w.len() ==> f(#[trigger] w[i])
}

/// What follows is the end of the text, or an ASCII character that goes on
/// with no word.
pub open spec fn parts_word(y: Seq<char>) -> bool {
    y.len() == 0 || ((y[0] as u32) < 0x80 && !('a' <= y[0] <= 'z') && !('A' <= y[0] <= 'Z') && y[0]
        != '\'')
}

/// What follows is the end of the text, or begins with a character of this kind.
pub open spec fn then_comes(y: Seq<char>, f: spec_fn(char) -> bool) -> bool {
    y.len() == 0 || f(y[0])
}

/// Between `x` and `y`, the characters `w` are one piece.
pub open spec fn one_piece<C: PretokConfig>(x: Seq<char>, w: Seq<char>, y: Seq<char>) -> bool {
    rules::piece_end::<C>(text::utf8(x + w + y), text::utf8(x).len() as int) == text::utf8(
        x + w,
    ).len()
}

// ---- characters and bytes ----

/// The character behind `x`, and the byte that it starts with.
pub proof fn lemma_at(x: Seq<char>, y: Seq<char>)
    ensures
        ({
            let b = text::utf8(x + y);
            let p = text::utf8(x).len() as int;
            &&& valid_utf8(b)
            &&& util::boundary(b, p)
            &&& p < b.len() <==> y.len() > 0
            &&& y.len() == 0 ==> p == b.len()
            &&& y.len() > 0 ==> {
                &&& util::char_at(b, p) == y[0]
                &&& util::after(b, p) == text::utf8(x.push(y[0])).len()
                &&& (b[p] < 0x80 <==> (y[0] as u32) < 0x80)
                &&& b[p] < 0x80 ==> b[p] as u32 == y[0] as u32 && util::after(b, p) == p + 1
            }
        }),
{
    let b = text::utf8(x + y);
    let p = text::utf8(x).len() as int;
    text::lemma_utf8_concat(x, y);
    encode_utf8_valid_utf8(x + y);
    encode_utf8_valid_utf8(y);
    assert(util::tail(b, p) =~= text::utf8(y));
    if y.len() > 0 {
        encode_utf8_first_scalar(y);
        util::lemma_after(b, p);
        text::lemma_utf8_push(x, y[0]);
        char_u32_cast(y[0], decode_first_scalar(text::utf8(y)));
        text::lemma_utf8_concat(seq![y[0]], y.drop_first());
        assert(seq![y[0]] + y.drop_first() =~= y);
        assert(seq![y[0]].drop_first() =~= Seq::<char>::empty());
        assert(encode_utf8(Seq::<char>::empty()) =~= Seq::<u8>::empty());
        assert(text::utf8(seq![y[0]]) =~= encode_scalar(y[0] as u32));
    }
}

/// The character belongs to the class.
spec fn of_class<C: PretokConfig>(k: Class, c: char) -> bool {
    if (c as u32) < 0x80 {
        rules::class_byte::<C>(k, c as u8)
    } else {
        rules::class_char::<C>(k, c)
    }
}

proof fn lemma_member<C: PretokConfig>(x: Seq<char>, y: Seq<char>, k: Class)
    requires
        y.len() > 0,
    ensures
        rules::member::<C>(text::utf8(x + y), text::utf8(x).len() as int, k) <==> of_class::<C>(
            k,
            y[0],
        ),
{
    lemma_at(x, y);
}

/// A run of a class goes as far as the characters of the class.
proof fn lemma_run<C: PretokConfig>(x: Seq<char>, w: Seq<char>, y: Seq<char>, k: Class)
    requires
        forall|i: int| 0 <= i < w.len() ==> of_class::<C>(k, #[trigger] w[i]),
        y.len() > 0 ==> !of_class::<C>(k, y[0]),
    ensures
        rules::run_end::<C>(text::utf8(x + w + y), text::utf8(x).len() as int, k) == text::utf8(
            x + w,
        ).len(),
    decreases w.len(),
{
    let b = text::utf8(x + w + y);
    let p = text::utf8(x).len() as int;
    assert(x + w + y =~= x + (w + y));
    lemma_at(x, w + y);
    if w.len() == 0 {
        assert(w + y =~= y);
        assert(x + w =~= x);
        if y.len() > 0 {
            lemma_member::<C>(x, y, k);
        }
    } else {
        lemma_member::<C>(x, w + y, k);
        assert(of_class::<C>(k, w[0]));
        let x2 = x.push(w[0]);
        let w2 = w.drop_first();
        assert(x2 + w2 =~= x + w);
        assert(x2 + w2 + y =~= x + w + y);
        util::lemma_after(b, p);
        lemma_run::<C>(x2, w2, y, k);
    }
}

proof fn lemma_run_upto<C: PretokConfig>(
    x: Seq<char>,
    w: Seq<char>,
    y: Seq<char>,
    k: Class,
    n: nat,
)
    requires
        forall|i: int| 0 <= i < w.len() ==> of_class::<C>(k, #[trigger] w[i]),
        w.len() <= n,
        w.len() == n || y.len() == 0 || !of_class::<C>(k, y[0]),
    ensures
        rules::run_end_upto::<C>(text::utf8(x + w + y), text::utf8(x).len() as int, k, n)
            == text::utf8(x + w).len(),
    decreases w.len(),
{
    let b = text::utf8(x + w + y);
    let p = text::utf8(x).len() as int;
    assert(x + w + y =~= x + (w + y));
    lemma_at(x, w + y);
    if w.len() == 0 {
        assert(w + y =~= y);
        assert(x + w =~= x);
        if y.len() > 0 {
            lemma_member::<C>(x, y, k);
        }
    } else {
        lemma_member::<C>(x, w + y, k);
        assert(of_class::<C>(k, w[0]));
        let x2 = x.push(w[0]);
        let w2 = w.drop_first();
        assert(x2 + w2 =~= x + w);
        assert(x2 + w2 + y =~= x + w + y);
        util::lemma_after(b, p);
        lemma_run_upto::<C>(x2, w2, y, k, (n - 1) as nat);
    }
}

/// Behind a word that is over, no contraction follows.
proof fn lemma_no_suffix<C: PretokConfig>(x: Seq<char>, y: Seq<char>)
    requires
        y.len() > 0 ==> y[0] != '\'',
    ensures
        rules::contraction_len::<C>(text::utf8(x + y), text::utf8(x).len() as int) == 0,
{
    lemma_at(x, y);
}

/// The kinds of letters, as the classes have them.
proof fn lemma_kinds<C: PretokConfig>(c: char)
    ensures
        letter(c) ==> of_class::<C>(Class::Letter, c),
        letter(c) && c as u32 >= 0x80 ==> rules::letter_char::<C>(c) && !util::unicode_mark(c),
        mark(c) && C::LETTER_MODE != LetterMode::Plain ==> rules::letter_char::<C>(c),
        mark(c) && C::LETTER_MODE == LetterMode::PlainWithMarks ==> of_class::<C>(
            Class::Letter,
            c,
        ),
        mark(c) && C::LETTER_MODE != LetterMode::PlainWithMarks ==> !of_class::<C>(
            Class::Letter,
            c,
        ),
        small(c) || mark(c) || caseless(c) ==> of_class::<C>(Class::Lower, c),
        capital(c) || caseless(c) ==> of_class::<C>(Class::Upper, c),
        small(c) ==> !of_class::<C>(Class::Upper, c) && of_class::<C>(Class::Descent, c),
        capital(c) ==> !of_class::<C>(Class::Lower, c) && !of_class::<C>(Class::Descent, c),
        caseless(c) ==> !of_class::<C>(Class::Descent, c),
        small(c) && c as u32 >= 0x80 ==> util::char_is_lowercase(c),
        (capital(c) || caseless(c)) && c as u32 >= 0x80 ==> !util::char_is_lowercase(c),
        (c as u32) < 0x80 ==> !caseless(c) && !mark(c),
{
}

proof fn lemma_parts<C: PretokConfig>(y: Seq<char>, k: Class)
    requires
        parts_word(y),
        k == Class::Letter || k == Class::Lower || k == Class::Upper || k == Class::Descent || k
            == Class::AsciiLetter,
    ensures
        y.len() > 0 ==> !of_class::<C>(k, y[0]),
{
    if y.len() > 0 {
        lemma_no_letter(y[0]);
    }
}

proof fn lemma_no_letter(c: char)
    requires
        (c as u32) < 0x80,
        !('a' <= c <= 'z'),
        !('A' <= c <= 'Z'),
    ensures
        !util::ascii_letter(c as u8),
{
}

// ---- words ----

/// The first character of a piece, and what it starts with.
proof fn lemma_first<C: PretokConfig>(x: Seq<char>, w: Seq<char>, y: Seq<char>)
    requires
        w.len() > 0,
        letter(w[0]),
    ensures
        ({
            let b = text::utf8(x + w + y);
            let p = text::utf8(x).len() as int;
            &&& util::after(b, p) == text::utf8(x.push(w[0])).len()
            &&& b[p] < 0x80 <==> (w[0] as u32) < 0x80
            &&& b[p] < 0x80 ==> util::ascii_letter(b[p]) && b[p] as u32 == w[0] as u32
                && util::after(b, p) == p + 1
            &&& b[p] >= 0x80 ==> util::char_at(b, p) == w[0]
            &&& x + w + y == x.push(w[0]) + w.drop_first() + y
            &&& x + w == x.push(w[0]) + w.drop_first()
            &&& x + w + y == (x + w) + y
        }),
{
    assert(x + w + y =~= x + (w + y));
    assert(x + w + y =~= x.push(w[0]) + w.drop_first() + y);
    assert(x + w =~= x.push(w[0]) + w.drop_first());
    lemma_at(x, w + y);
}

/// Letters are one word, in any script and in either case, where words do not
/// break at their capitals.
pub proof fn law_word_is_one_piece<C: PretokConfig>(x: Seq<char>, w: Seq<char>, y: Seq<char>)
    requires
        C::LETTER_MODE != LetterMode::CamelCase,
        w.len() > 0,
        all(w, |c: char| letter(c)),
        parts_word(y),
    ensures
        one_piece::<C>(x, w, y),
{
    let f = |c: char| letter(c);
    assert(f(w[0]));
    lemma_first::<C>(x, w, y);
    lemma_kinds::<C>(w[0]);
    let rest = w.drop_first();
    assert forall|i: int| 0 <= i < rest.len() implies of_class::<C>(
        Class::Letter,
        #[trigger] rest[i],
    ) by {
        assert(f(w[i + 1]));
        lemma_kinds::<C>(w[i + 1]);
    }
    lemma_parts::<C>(y, Class::Letter);
    lemma_run::<C>(x.push(w[0]), rest, y, Class::Letter);
    lemma_no_suffix::<C>(x + w, y);
}

/// Small letters are one word, in any script, under every pretokenizer.
pub proof fn law_small_word_is_one_piece<C: PretokConfig>(
    x: Seq<char>,
    w: Seq<char>,
    y: Seq<char>,
)
    requires
        w.len() > 0,
        all(w, |c: char| small(c)),
        parts_word(y),
    ensures
        one_piece::<C>(x, w, y),
{
    let f = |c: char| small(c);
    if C::LETTER_MODE == LetterMode::CamelCase {
        law_capitals_then_small_are_one_piece::<C>(x, seq![], w, y);
        assert(Seq::<char>::empty() + w =~= w);
    } else {
        assert forall|i: int| 0 <= i < w.len() implies letter(#[trigger] w[i]) by {
            assert(f(w[i]));
        }
        law_word_is_one_piece::<C>(x, w, y);
    }
}

/// Where words break at their capitals, capitals or letters without case and
/// the small letters behind them are one word. It goes on until a capital
/// follows a small letter.
pub proof fn law_capitals_then_small_are_one_piece<C: PretokConfig>(
    x: Seq<char>,
    u: Seq<char>,
    l: Seq<char>,
    y: Seq<char>,
)
    requires
        C::LETTER_MODE == LetterMode::CamelCase,
        u.len() + l.len() > 0,
        all(u, |c: char| capital(c) || caseless(c)),
        all(l, |c: char| small(c)),
        parts_word(y) || (l.len() > 0 && capital(y[0])),
    ensures
        one_piece::<C>(x, u + l, y),
{
    let w = u + l;
    let f = |c: char| capital(c) || caseless(c);
    let g = |c: char| small(c);
    assert forall|i: int| 0 <= i < u.len() implies of_class::<C>(
        Class::Upper,
        #[trigger] u[i],
    ) by {
        assert(f(u[i]));
        lemma_kinds::<C>(u[i]);
    }
    assert forall|i: int| 0 <= i < l.len() implies of_class::<C>(Class::Lower, #[trigger] l[i])
        && of_class::<C>(Class::Descent, l[i]) && !of_class::<C>(Class::Upper, l[i]) by {
        assert(g(l[i]));
        lemma_kinds::<C>(l[i]);
    }
    if y.len() > 0 {
        lemma_kinds::<C>(y[0]);
    }
    if parts_word(y) {
        lemma_parts::<C>(y, Class::Lower);
        lemma_parts::<C>(y, Class::Upper);
        lemma_parts::<C>(y, Class::Descent);
    }
    if u.len() > 0 {
        assert(w[0] == u[0]);
        assert(f(u[0]));
    } else {
        assert(w[0] == l[0]);
        assert(g(l[0]));
    }
    lemma_first::<C>(x, w, y);
    lemma_kinds::<C>(w[0]);
    lemma_no_suffix::<C>(x + w, y);
    let x1 = x.push(w[0]);
    let rest = w.drop_first();
    if u.len() == 0 {
        assert(rest =~= l.drop_first());
        assert forall|i: int| 0 <= i < rest.len() implies of_class::<C>(
            Class::Lower,
            #[trigger] rest[i],
        ) by {
            assert(rest[i] == l[i + 1]);
        }
        lemma_run::<C>(x1, rest, y, Class::Lower);
    } else {
        let u1 = u.drop_first();
        assert forall|i: int| 0 <= i < u1.len() implies of_class::<C>(
            Class::Upper,
            #[trigger] u1[i],
        ) by {
            assert(u1[i] == u[i + 1]);
        }
        lemma_upper_then_lower::<C>(x1, u1, l, y);
        assert(x1 + u1 + l + y =~= x + w + y);
        assert(x1 + u1 + l =~= x + w);
    }
}

proof fn lemma_upper_then_lower<C: PretokConfig>(
    x: Seq<char>,
    u: Seq<char>,
    l: Seq<char>,
    y: Seq<char>,
)
    requires
        forall|i: int| 0 <= i < u.len() ==> of_class::<C>(Class::Upper, #[trigger] u[i]),
        forall|i: int| 0 <= i < l.len() ==> of_class::<C>(Class::Lower, #[trigger] l[i]),
        l.len() > 0 ==> of_class::<C>(Class::Descent, l[0]) && !of_class::<C>(Class::Upper, l[0]),
        y.len() > 0 ==> !of_class::<C>(Class::Lower, y[0]),
        y.len() > 0 && l.len() == 0 ==> !of_class::<C>(Class::Upper, y[0]) && !of_class::<C>(
            Class::Descent,
            y[0],
        ),
    ensures
        rules::upper_then_lower_end::<C>(
            text::utf8(x + u + l + y),
            text::utf8(x).len() as int,
        ) == text::utf8(x + u + l).len(),
{
    let b = text::utf8(x + u + l + y);
    assert(x + u + l + y =~= x + u + (l + y));
    lemma_run::<C>(x, u, l + y, Class::Upper);
    lemma_at(x + u, l + y);
    if l.len() > 0 {
        assert((l + y)[0] == l[0]);
        lemma_member::<C>(x + u, l + y, Class::Descent);
        let x2 = (x + u).push(l[0]);
        let l2 = l.drop_first();
        assert forall|i: int| 0 <= i < l2.len() implies of_class::<C>(
            Class::Lower,
            #[trigger] l2[i],
        ) by {
            assert(l2[i] == l[i + 1]);
        }
        assert(x2 + l2 + y =~= x + u + l + y);
        assert(x2 + l2 =~= x + u + l);
        lemma_run::<C>(x2, l2, y, Class::Lower);
    } else {
        assert(l + y =~= y);
        assert(x + u + l =~= x + u);
        if y.len() > 0 {
            lemma_member::<C>(x + u, y, Class::Descent);
        }
    }
}

/// Letters without case are one word, under every pretokenizer.
pub proof fn law_caseless_word_is_one_piece<C: PretokConfig>(
    x: Seq<char>,
    w: Seq<char>,
    y: Seq<char>,
)
    requires
        w.len() > 0,
        all(w, |c: char| caseless(c)),
        parts_word(y),
    ensures
        one_piece::<C>(x, w, y),
{
    let f = |c: char| caseless(c);
    if C::LETTER_MODE == LetterMode::CamelCase {
        assert forall|i: int| 0 <= i < w.len() implies (capital(#[trigger] w[i]) || caseless(
            w[i],
        )) by {
            assert(f(w[i]));
        }
        law_capitals_then_small_are_one_piece::<C>(x, w, seq![], y);
        assert(w + Seq::<char>::empty() =~= w);
    } else {
        assert forall|i: int| 0 <= i < w.len() implies letter(#[trigger] w[i]) by {
            assert(f(w[i]));
        }
        law_word_is_one_piece::<C>(x, w, y);
    }
}

/// Marks go on with a word where they belong to words; elsewhere the word ends
/// in front of them.
pub proof fn law_marks_and_words<C: PretokConfig>(
    x: Seq<char>,
    w: Seq<char>,
    m: Seq<char>,
    y: Seq<char>,
)
    requires
        w.len() > 0,
        all(w, |c: char| small(c)),
        m.len() > 0,
        all(m, |c: char| mark(c)),
        parts_word(y),
    ensures
        C::LETTER_MODE != LetterMode::Plain ==> one_piece::<C>(x, w + m, y),
        C::LETTER_MODE == LetterMode::Plain ==> one_piece::<C>(x, w, m + y),
{
    let f = |c: char| small(c);
    let g = |c: char| mark(c);
    assert(f(w[0]));
    lemma_kinds::<C>(w[0]);
    if C::LETTER_MODE == LetterMode::Plain {
        lemma_first::<C>(x, w, m + y);
        let rest = w.drop_first();
        assert forall|i: int| 0 <= i < rest.len() implies of_class::<C>(
            Class::Letter,
            #[trigger] rest[i],
        ) by {
            assert(f(w[i + 1]));
            lemma_kinds::<C>(w[i + 1]);
        }
        assert((m + y)[0] == m[0]);
        assert(g(m[0]));
        lemma_kinds::<C>(m[0]);
        lemma_run::<C>(x.push(w[0]), rest, m + y, Class::Letter);
        lemma_no_suffix::<C>(x + w, m + y);
    } else {
        let v = w + m;
        assert(v[0] == w[0]);
        lemma_first::<C>(x, v, y);
        let k = if C::LETTER_MODE == LetterMode::CamelCase {
            Class::Lower
        } else {
            Class::Letter
        };
        let rest = v.drop_first();
        assert forall|i: int| 0 <= i < rest.len() implies of_class::<C>(k, #[trigger] rest[i]) by {
            if i + 1 < w.len() {
                assert(f(w[i + 1]));
                lemma_kinds::<C>(w[i + 1]);
            } else {
                assert(rest[i] == m[i + 1 - w.len()]);
                assert(g(m[i + 1 - w.len()]));
                lemma_kinds::<C>(m[i + 1 - w.len()]);
            }
        }
        lemma_parts::<C>(y, k);
        lemma_run::<C>(x.push(v[0]), rest, y, k);
        lemma_no_suffix::<C>(x + v, y);
    }
}

/// A space or a tab belongs to the word behind it: the piece that starts with
/// it ends where the word does.
pub proof fn law_space_belongs_to_the_word<C: PretokConfig>(x: Seq<char>, c: char, y: Seq<char>)
    requires
        C::LETTER_MODE == LetterMode::CamelCase ==> C::CONTRACTION_MODE == ContractionMode::Suffix,
        c == ' ' || c == '\t',
        y.len() > 0,
        letter(y[0]),
    ensures
        ({
            let b = text::utf8(x.push(c) + y);
            let p = text::utf8(x).len() as int;
            rules::piece_end::<C>(b, p) == rules::piece_end::<C>(b, p + 1)
        }),
{
    lemma_behind::<C>(x, c, y);
    lemma_kinds::<C>(y[0]);
}

/// The character in front, and the letter behind it.
proof fn lemma_behind<C: PretokConfig>(x: Seq<char>, c: char, y: Seq<char>)
    requires
        y.len() > 0,
        (c as u32) < 0x80,
    ensures
        ({
            let b = text::utf8(x.push(c) + y);
            let p = text::utf8(x).len() as int;
            &&& text::utf8(x.push(c)).len() == p + 1
            &&& p + 1 < b.len()
            &&& util::boundary(b, p)
            &&& util::boundary(b, p + 1)
            &&& b[p] as u32 == c as u32
            &&& util::char_at(b, p + 1) == y[0]
            &&& util::after(b, p) == p + 1
            &&& (b[p + 1] < 0x80 <==> (y[0] as u32) < 0x80)
            &&& b[p + 1] < 0x80 ==> b[p + 1] as u32 == y[0] as u32 && util::after(b, p + 1) == p + 2
            &&& rules::run_end::<C>(b, p + 1, Class::Letter) == if of_class::<C>(
                Class::Letter,
                y[0],
            ) {
                rules::run_end::<C>(b, util::after(b, p + 1), Class::Letter)
            } else {
                p + 1
            }
            &&& (letter(y[0]) && b[p + 1] < 0x80 ==> util::ascii_letter(b[p + 1]))
        }),
{
    let b = text::utf8(x.push(c) + y);
    let p = text::utf8(x).len() as int;
    text::lemma_utf8_push(x, c);
    text::lemma_utf8_ascii(c);
    lemma_at(x.push(c), y);
    let cy = seq![c] + y;
    assert(x + cy =~= x.push(c) + y);
    lemma_at(x, cy);
    lemma_member::<C>(x.push(c), y, Class::Letter);
    util::lemma_after(b, p + 1);
}

/// Where any character may stand in front of a word, one of ASCII punctuation
/// belongs to the word behind it; where only a space may, it does not.
pub proof fn law_punctuation_in_front_of_a_word<C: PretokConfig>(
    x: Seq<char>,
    c: char,
    y: Seq<char>,
)
    requires
        C::LETTER_MODE == LetterMode::CamelCase ==> C::CONTRACTION_MODE == ContractionMode::Suffix,
        punct(c),
        c != '\'',
        y.len() > 0,
        letter(y[0]),
    ensures
        ({
            let b = text::utf8(x.push(c) + y);
            let p = text::utf8(x).len() as int;
            &&& C::PUNCT_PREFIX_MODE == PunctPrefixMode::Any ==> rules::piece_end::<C>(b, p)
                == rules::piece_end::<C>(b, p + 1)
            &&& C::PUNCT_PREFIX_MODE == PunctPrefixMode::SpaceOnly ==> rules::piece_end::<C>(b, p)
                == p + 1
        }),
{
    let b = text::utf8(x.push(c) + y);
    let p = text::utf8(x).len() as int;
    lemma_behind::<C>(x, c, y);
    lemma_kinds::<C>(y[0]);
    lemma_letter_is_no_punct::<C>(y[0]);
    lemma_member::<C>(x.push(c), y, Class::Punct);
    lemma_member::<C>(x.push(c), y, Class::Trailing);
}

proof fn lemma_letter_is_no_punct<C: PretokConfig>(c: char)
    requires
        letter(c),
    ensures
        !of_class::<C>(Class::Punct, c),
        !of_class::<C>(Class::Trailing, c),
        !of_class::<C>(Class::Number, c) || c as u32 >= 0x80,
{
}

/// Letters behind one ASCII punctuation character, where only ASCII may stand
/// in front of a word.
pub proof fn law_ascii_word_behind_punctuation<C: PretokConfig>(
    x: Seq<char>,
    c: char,
    w: Seq<char>,
    y: Seq<char>,
)
    requires
        C::PUNCT_PREFIX_MODE == PunctPrefixMode::AsciiOnly,
        C::LETTER_MODE != LetterMode::CamelCase,
        punct(c),
        c != '\'',
        w.len() > 0,
        all(w, |c: char| 'a' <= c <= 'z' || 'A' <= c <= 'Z'),
        parts_word(y),
    ensures
        one_piece::<C>(x, seq![c] + w, y),
{
    let f = |c: char| 'a' <= c <= 'z' || 'A' <= c <= 'Z';
    assert(f(w[0]));
    let v = seq![c] + w;
    assert(x + v + y =~= x.push(c) + (w + y));
    assert((w + y)[0] == w[0]);
    lemma_behind::<C>(x, c, w + y);
    let x2 = x.push(c).push(w[0]);
    let rest = w.drop_first();
    assert forall|i: int| 0 <= i < rest.len() implies of_class::<C>(
        Class::AsciiLetter,
        #[trigger] rest[i],
    ) by {
        assert(f(w[i + 1]));
    }
    assert(x2 + rest + y =~= x + v + y);
    assert(x2 + rest =~= x + v);
    lemma_parts::<C>(y, Class::AsciiLetter);
    text::lemma_utf8_push(x.push(c), w[0]);
    text::lemma_utf8_ascii(w[0]);
    lemma_run::<C>(x2, rest, y, Class::AsciiLetter);
    lemma_no_suffix::<C>(x + v, y);
}

// ---- numbers ----

/// A number character outside ASCII that is no letter.
pub open spec fn far_number(c: char) -> bool {
    &&& c as u32 >= 0x80
    &&& util::general_category(c)[0] == 'N'
    &&& util::char_is_numeric(c)
    &&& !util::char_is_alphabetic(c)
}

proof fn lemma_numbers<C: PretokConfig>(c: char)
    ensures
        digit(c) || far_number(c) ==> of_class::<C>(Class::Number, c),
        far_number(c) ==> !rules::letter_char::<C>(c),
        digit(c) ==> util::ascii_digit(c as u8),
        (c as u32) < 0x80 && !digit(c) ==> !of_class::<C>(Class::Number, c),
{
}

/// How many characters of a number of `n` go into one piece.
pub open spec fn taken_numbers(m: DigitMode, n: nat) -> nat {
    match m {
        DigitMode::Unlimited => n,
        DigitMode::Chunked3 => if n > 3 {
            3
        } else {
            n
        },
        DigitMode::Single => 1,
    }
}

/// A number goes into pieces whole, by threes, or one by one, as the config
/// says, be its digits ASCII or not.
pub proof fn law_numbers<C: PretokConfig>(x: Seq<char>, w: Seq<char>, y: Seq<char>)
    requires
        w.len() > 0,
        all(w, |c: char| digit(c) || far_number(c)),
        then_comes(y, |c: char| (c as u32) < 0x80 && !digit(c)),
    ensures
        ({
            let n = taken_numbers(C::DIGIT_MODE, w.len()) as int;
            one_piece::<C>(x, w.take(n), w.skip(n) + y)
        }),
{
    let f = |c: char| digit(c) || far_number(c);
    let g = |c: char| (c as u32) < 0x80 && !digit(c);
    let n = taken_numbers(C::DIGIT_MODE, w.len()) as int;
    let v = w.take(n);
    let z = w.skip(n) + y;
    let t = x + v + z;
    let b = text::utf8(t);
    let p = text::utf8(x).len() as int;
    assert forall|i: int| 0 <= i < w.len() implies of_class::<C>(
        Class::Number,
        #[trigger] w[i],
    ) by {
        assert(f(w[i]));
        lemma_numbers::<C>(w[i]);
    }
    if y.len() > 0 {
        lemma_numbers::<C>(y[0]);
    }
    assert(f(w[0]));
    lemma_numbers::<C>(w[0]);
    assert(t =~= x + (v + z));
    lemma_at(x, v + z);
    assert((v + z)[0] == w[0]);
    let x1 = x.push(w[0]);
    let rest = v.drop_first();
    assert forall|i: int| 0 <= i < rest.len() implies of_class::<C>(
        Class::Number,
        #[trigger] rest[i],
    ) by {
        assert(rest[i] == w[i + 1]);
    }
    assert(x1 + rest + z =~= t);
    assert(x1 + rest =~= x + v);
    if digit(w[0]) {
        assert(util::ascii_digit(b[p]));
    }
    match C::DIGIT_MODE {
        DigitMode::Unlimited => {
            assert(z =~= y);
            lemma_run::<C>(x1, rest, z, Class::Number);
        },
        DigitMode::Chunked3 => {
            if n < 3 {
                assert(z =~= y);
            }
            lemma_run_upto::<C>(x1, rest, z, Class::Number, 2);
        },
        DigitMode::Single => {
            assert(rest =~= Seq::empty());
            assert(x1 + rest =~= x1);
        },
    }
}

/// A space stands in front of a number where the config lets it, and else it
/// is a piece of its own.
pub proof fn law_space_in_front_of_a_number<C: PretokConfig>(x: Seq<char>, y: Seq<char>)
    requires
        y.len() > 0,
        digit(y[0]),
    ensures
        ({
            let b = text::utf8(x.push(' ') + y);
            let p = text::utf8(x).len() as int;
            &&& C::SPACE_PREFIXES_DIGITS ==> rules::piece_end::<C>(b, p) == rules::piece_end::<C>(
                b,
                p + 1,
            )
            &&& !C::SPACE_PREFIXES_DIGITS ==> rules::piece_end::<C>(b, p) == p + 1
        }),
{
    let b = text::utf8(x.push(' ') + y);
    let p = text::utf8(x).len() as int;
    lemma_behind::<C>(x, ' ', y);
    lemma_numbers::<C>(y[0]);
    assert(util::ascii_digit(b[p + 1]));
    if !C::SPACE_PREFIXES_DIGITS {
        lemma_run::<C>(x, seq![' '], y, Class::Space);
        assert(x + seq![' '] + y =~= x.push(' ') + y);
        assert(x + seq![' '] =~= x.push(' '));
        reveal_with_fuel(rules::last_newline_end, 2);
    }
}

// ---- whitespace ----

/// `n` times the character.
pub open spec fn times(c: char, n: nat) -> Seq<char> {
    Seq::new(n, |i: int| c)
}

proof fn lemma_spaces<C: PretokConfig>(x: Seq<char>, n: nat, y: Seq<char>)
    requires
        n >= 2,
        y.len() > 0 ==> (y[0] as u32) < 0x80 && y[0] != ' ' && y[0] != '\t' && y[0] != '\n' && y[0]
            != '\r',
    ensures
        ({
            let b = text::utf8(x + times(' ', n) + y);
            let p = text::utf8(x).len() as int;
            &&& p + n <= b.len()
            &&& (p + n < b.len() <==> y.len() > 0)
            &&& p + n == text::utf8(x + times(' ', n)).len()
            &&& (y.len() > 0 ==> b[p + n] as u32 == y[0] as u32)
            &&& forall|i: int| p <= i < p + n ==> b[i] == 0x20
            &&& rules::piece_end::<C>(b, p) == if y.len() == 0 || rules::keeps_whole::<C>(
                b,
                p + n,
            ) {
                p + n
            } else {
                p + n - 1
            }
        }),
{
    let w = times(' ', n);
    let b = text::utf8(x + w + y);
    let p = text::utf8(x).len() as int;
    lemma_ascii_times(' ', n);
    text::lemma_utf8_concat(x, w);
    text::lemma_utf8_concat(x + w, y);
    lemma_at(x + w, y);
    lemma_run::<C>(x, w, y, Class::Space);
    assert(forall|i: int| p <= i < p + n ==> b[i] == text::utf8(w)[i - p]);
    assert(b[p] == 0x20 && b[p + 1] == 0x20);
    lemma_no_newline(b, p, p + n);
    assert(!is_continuation_byte(0x20u8));
}

proof fn lemma_ascii_times(c: char, n: nat)
    requires
        (c as u32) < 0x80,
    ensures
        text::utf8(times(c, n)).len() == n,
        forall|i: int| 0 <= i < n ==> text::utf8(times(c, n))[i] as u32 == c as u32,
{
    let w = times(c, n);
    assert(is_ascii_chars(w));
    is_ascii_chars_encode_utf8(w);
}

proof fn lemma_no_newline(b: Seq<u8>, p: int, e: int)
    requires
        0 <= p <= e <= b.len(),
        forall|i: int| p <= i < e ==> b[i] == 0x20,
    ensures
        rules::last_newline_end(b, p, e) == 0,
    decreases e - p,
{
    if p < e {
        assert(b[e - 1] == 0x20);
        lemma_no_newline(b, p, e - 1);
    }
}

/// Several spaces in front of a letter or of ASCII punctuation: all but the
/// last are one piece, and the last is left to what follows.
pub proof fn law_last_space_is_left<C: PretokConfig>(x: Seq<char>, n: nat, y: Seq<char>)
    requires
        n >= 2,
        y.len() > 0,
        punct(y[0]) || 'a' <= y[0] <= 'z' || 'A' <= y[0] <= 'Z',
    ensures
        one_piece::<C>(x, times(' ', (n - 1) as nat), seq![' '] + y),
{
    let v = times(' ', (n - 1) as nat);
    assert(x + v + (seq![' '] + y) =~= x + times(' ', n) + y);
    lemma_spaces::<C>(x, n, y);
    lemma_ascii_times(' ', (n - 1) as nat);
    text::lemma_utf8_concat(x, v);
    lemma_numbers::<C>(y[0]);
    lemma_at(x + times(' ', n), y);
    lemma_member::<C>(x + times(' ', n), y, Class::Number);
}

/// Several spaces in front of a digit: the last is left to the number, but
/// for those pretokenizers that keep them whole.
pub proof fn law_spaces_in_front_of_digits<C: PretokConfig>(x: Seq<char>, n: nat, y: Seq<char>)
    requires
        n >= 2,
        y.len() > 0,
        digit(y[0]),
    ensures
        C::WS_EXCEPTION == WsException::Absent ==> one_piece::<C>(
            x,
            times(' ', (n - 1) as nat),
            seq![' '] + y,
        ),
        C::WS_EXCEPTION == WsException::Digits && C::WS_PATTERN == WsPattern::Gpt2 ==> one_piece::<
            C,
        >(x, times(' ', n), y),
        C::WS_EXCEPTION == WsException::Cjk && C::WS_PATTERN == WsPattern::Cl100k ==> one_piece::<
            C,
        >(x, times(' ', n), y),
{
    let v = times(' ', (n - 1) as nat);
    assert(x + v + (seq![' '] + y) =~= x + times(' ', n) + y);
    lemma_spaces::<C>(x, n, y);
    lemma_ascii_times(' ', (n - 1) as nat);
    text::lemma_utf8_concat(x, v);
    lemma_numbers::<C>(y[0]);
    lemma_at(x + times(' ', n), y);
    lemma_member::<C>(x + times(' ', n), y, Class::Number);
    assert(util::ascii_digit(y[0] as u8));
}

/// Spaces at the end of a text are one piece.
pub proof fn law_spaces_at_the_end<C: PretokConfig>(x: Seq<char>, n: nat)
    requires
        n > 0,
    ensures
        one_piece::<C>(x, times(' ', n), seq![]),
{
    if n >= 2 {
        lemma_spaces::<C>(x, n, seq![]);
    } else {
        let w = times(' ', 1);
        assert(x + w + Seq::<char>::empty() =~= x + (w + Seq::<char>::empty()));
        assert(x + w + Seq::<char>::empty() =~= x + w);
        lemma_at(x, w + Seq::<char>::empty());
        lemma_ascii_times(' ', 1);
        text::lemma_utf8_concat(x, w);
    }
}

/// Newlines are one piece, whatever follows them, where whitespace ends behind
/// its newlines.
pub proof fn law_newlines<C: PretokConfig>(x: Seq<char>, w: Seq<char>, y: Seq<char>)
    requires
        C::WS_PATTERN == WsPattern::Cl100k,
        w.len() > 0,
        all(w, |c: char| c == '\n' || c == '\r'),
        then_comes(y, |c: char| c != '\n' && c != '\r'),
    ensures
        one_piece::<C>(x, w, y),
{
    let f = |c: char| c == '\n' || c == '\r';
    assert(f(w[0]));
    assert(x + w + y =~= x + (w + y));
    lemma_at(x, w + y);
    assert((w + y)[0] == w[0]);
    let x1 = x.push(w[0]);
    let rest = w.drop_first();
    assert forall|i: int| 0 <= i < rest.len() implies of_class::<C>(
        Class::Newline,
        #[trigger] rest[i],
    ) by {
        assert(f(w[i + 1]));
    }
    assert(x1 + rest + y =~= x + w + y);
    assert(x1 + rest =~= x + w);
    if y.len() > 0 {
        lemma_not_newline::<C>(y[0]);
    }
    lemma_run::<C>(x1, rest, y, Class::Newline);
}

proof fn lemma_not_newline<C: PretokConfig>(c: char)
    requires
        c != '\n' && c != '\r',
    ensures
        !of_class::<C>(Class::Newline, c),
{
}

/// Spaces and the newline behind them are one piece, where whitespace ends
/// behind its newlines.
pub proof fn law_spaces_then_newline<C: PretokConfig>(x: Seq<char>, n: nat, y: Seq<char>)
    requires
        C::WS_PATTERN == WsPattern::Cl100k,
        n > 0,
        then_comes(y, |c: char| (c as u32) < 0x80 && punct(c) || letter(c) && (c as u32) < 0x80),
    ensures
        one_piece::<C>(x, times(' ', n).push('\n'), y),
{
    let g = |c: char| (c as u32) < 0x80 && punct(c) || letter(c) && (c as u32) < 0x80;
    let s = times(' ', n);
    let w = s.push('\n');
    let b = text::utf8(x + w + y);
    let p = text::utf8(x).len() as int;
    lemma_ascii_times(' ', n);
    text::lemma_utf8_concat(x, w);
    text::lemma_utf8_concat(x + w, y);
    text::lemma_utf8_push(s, '\n');
    text::lemma_utf8_ascii('\n');
    if y.len() > 0 {
        assert(g(y[0]));
        lemma_visible_is_no_space::<C>(y[0]);
    }
    assert forall|i: int| 0 <= i < w.len() implies of_class::<C>(Class::Space, #[trigger] w[i]) by {
    }
    lemma_run::<C>(x, w, y, Class::Space);
    assert(b[p] == text::utf8(w)[0]);
    assert(b[p + 1] == text::utf8(w)[1]);
    assert(b[p + n] == text::utf8(w)[n as int]);
    assert(b[p] == 0x20);
    assert(b[p + n] == 0x0a);
    assert(b[p + 1] == 0x20 || b[p + 1] == 0x0a) by {
        if n > 1 {
            assert(text::utf8(w)[1] == text::utf8(s)[1]);
        }
    }
}

proof fn lemma_visible_is_no_space<C: PretokConfig>(c: char)
    requires
        (c as u32) < 0x80,
        punct(c) || letter(c),
    ensures
        !of_class::<C>(Class::Space, c),
{
}

/// Behind its last newline whitespace starts a piece of its own.
pub proof fn law_spaces_behind_a_newline<C: PretokConfig>(x: Seq<char>, n: nat, m: nat, y: Seq<char>)
    requires
        C::WS_PATTERN == WsPattern::Cl100k,
        n > 0,
        then_comes(y, |c: char| (c as u32) < 0x80 && punct(c) || letter(c) && (c as u32) < 0x80),
    ensures
        one_piece::<C>(x, times(' ', n).push('\n'), times(' ', m) + y),
{
    let g = |c: char| (c as u32) < 0x80 && punct(c) || letter(c) && (c as u32) < 0x80;
    let s = times(' ', n);
    let w = s.push('\n');
    let z = times(' ', m);
    let b = text::utf8(x + w + (z + y));
    let p = text::utf8(x).len() as int;
    lemma_ascii_times(' ', n);
    lemma_ascii_times(' ', m);
    assert(x + w + (z + y) =~= x + (w + z) + y);
    text::lemma_utf8_concat(x, w);
    text::lemma_utf8_concat(x + w, z + y);
    text::lemma_utf8_concat(z, y);
    text::lemma_utf8_concat(x, w + z);
    text::lemma_utf8_concat(w, z);
    text::lemma_utf8_push(s, '\n');
    text::lemma_utf8_ascii('\n');
    if y.len() > 0 {
        assert(g(y[0]));
        lemma_visible_is_no_space::<C>(y[0]);
    }
    let v = w + z;
    assert forall|i: int| 0 <= i < v.len() implies of_class::<C>(Class::Space, #[trigger] v[i]) by {
        if i < n {
            assert(v[i] == ' ');
        } else if i == n {
            assert(v[i] == '\n');
        } else {
            assert(v[i] == ' ');
        }
    }
    lemma_run::<C>(x, v, y, Class::Space);
    let e = p + n + 1 + m;
    assert(text::utf8(x + v).len() == e);
    assert(b[p] == text::utf8(w)[0]);
    assert(b[p + 1] == text::utf8(w)[1]);
    assert(b[p + n] == text::utf8(w)[n as int]);
    assert(b[p] == 0x20);
    assert(b[p + n] == 0x0a);
    assert(b[p + 1] == 0x20 || b[p + 1] == 0x0a) by {
        if n > 1 {
            assert(text::utf8(w)[1] == text::utf8(s)[1]);
        }
    }
    assert forall|i: int| p + n + 1 <= i < e implies !util::newline(#[trigger] b[i]) by {
        assert(b[i] == text::utf8(z + y)[i - (p + n + 1)]);
        assert(b[i] == text::utf8(z)[i - (p + n + 1)]);
    }
    rules::lemma_last_newline(b, p, p + n + 1, e);
}

// ---- punctuation ----

proof fn lemma_punct<C: PretokConfig>(c: char)
    ensures
        punct(c) ==> of_class::<C>(Class::Punct, c) && (c as u32) < 0x80,
        digit(c) || c == ' ' ==> !of_class::<C>(Class::Punct, c) && !of_class::<C>(
            Class::Trailing,
            c,
        ),
        c == '\n' || c == '\r' ==> !of_class::<C>(Class::Punct, c),
        (c == '\n' || c == '\r') && C::PUNCT_TRAILING == PunctTrailing::Absent ==> !of_class::<C>(
            Class::Trailing,
            c,
        ),
        (c == '\n' || c == '\r') && C::PUNCT_TRAILING != PunctTrailing::Absent ==> of_class::<C>(
            Class::Trailing,
            c,
        ),
        punct(c) && c != '/' ==> !of_class::<C>(Class::Trailing, c),
        c == '/' && C::PUNCT_TRAILING != PunctTrailing::NewlinesAndSlashes ==> !of_class::<C>(
            Class::Trailing,
            c,
        ),
        ('a' <= c <= 'z') || ('A' <= c <= 'Z') ==> !of_class::<C>(Class::Punct, c) && !of_class::<
            C,
        >(Class::Trailing, c),
{
}

/// Punctuation of ASCII is one piece, with the newlines behind it where these
/// belong to it.
pub proof fn law_punctuation<C: PretokConfig>(
    x: Seq<char>,
    w: Seq<char>,
    n: Seq<char>,
    y: Seq<char>,
)
    requires
        w.len() > 0,
        all(w, |c: char| punct(c)),
        w[0] != '\'',
        all(n, |c: char| c == '\n' || c == '\r'),
        then_comes(y, |c: char| digit(c) || c == ' '),
    ensures
        C::PUNCT_TRAILING != PunctTrailing::Absent ==> one_piece::<C>(x, w + n, y),
        C::PUNCT_TRAILING == PunctTrailing::Absent ==> one_piece::<C>(x, w, n + y),
{
    let f = |c: char| punct(c);
    let g = |c: char| c == '\n' || c == '\r';
    let h = |c: char| digit(c) || c == ' ';
    let t = x + w + n + y;
    let b = text::utf8(t);
    let p = text::utf8(x).len() as int;
    assert(t =~= x + (w + n + y));
    assert(t =~= x + (w + n) + y);
    assert(t =~= x + w + (n + y));
    lemma_at(x, w + n + y);
    assert((w + n + y)[0] == w[0]);
    assert(f(w[0]));
    lemma_punct::<C>(w[0]);
    let x1 = x.push(w[0]);
    let rest = w.drop_first();
    assert forall|i: int| 0 <= i < rest.len() implies of_class::<C>(
        Class::Punct,
        #[trigger] rest[i],
    ) by {
        assert(f(w[i + 1]));
        lemma_punct::<C>(w[i + 1]);
    }
    assert(x1 + rest + (n + y) =~= t);
    assert(x1 + rest =~= x + w);
    if n.len() > 0 {
        assert(g(n[0]));
        lemma_punct::<C>(n[0]);
        assert((n + y)[0] == n[0]);
    } else if y.len() > 0 {
        assert(h(y[0]));
        lemma_punct::<C>(y[0]);
        assert((n + y)[0] == y[0]);
    }
    if y.len() > 0 {
        assert(h(y[0]));
        lemma_punct::<C>(y[0]);
    }
    lemma_run::<C>(x1, rest, n + y, Class::Punct);
    if C::PUNCT_TRAILING == PunctTrailing::Absent {
        lemma_run::<C>(x + w, seq![], n + y, Class::Trailing);
        assert(x + w + Seq::<char>::empty() =~= x + w);
    } else {
        assert forall|i: int| 0 <= i < n.len() implies of_class::<C>(
            Class::Trailing,
            #[trigger] n[i],
        ) by {
            assert(g(n[i]));
            lemma_punct::<C>(n[i]);
        }
        lemma_run::<C>(x + w, n, y, Class::Trailing);
        assert(x + w + n =~= x + (w + n));
    }
    lemma_next::<C>(x1, rest + n + y);
    assert(x1 + (rest + n + y) =~= t);
    if rest.len() > 0 {
        assert((rest + n + y)[0] == w[1]);
        assert(f(w[1]));
    } else if n.len() > 0 {
        assert((rest + n + y)[0] == n[0]);
    } else if y.len() > 0 {
        assert((rest + n + y)[0] == y[0]);
    }
}

/// The byte at the start of what follows.
proof fn lemma_next<C: PretokConfig>(x: Seq<char>, y: Seq<char>)
    ensures
        ({
            let b = text::utf8(x + y);
            let p = text::utf8(x).len() as int;
            &&& (p < b.len() <==> y.len() > 0)
            &&& p <= b.len()
            &&& y.len() > 0 && (punct(y[0]) || digit(y[0]) || y[0] == ' ' || y[0] == '\n' || y[0]
                == '\r') ==> b[p] < 0x80 && !util::ascii_letter(b[p])
        }),
{
    lemma_at(x, y);
}

/// A space belongs to the punctuation behind it, and to nothing more: a word
/// behind the punctuation starts a piece of its own.
pub proof fn law_space_belongs_to_punctuation<C: PretokConfig>(
    x: Seq<char>,
    w: Seq<char>,
    y: Seq<char>,
)
    requires
        w.len() > 0,
        all(w, |c: char| punct(c)),
        then_comes(
            y,
            |c: char| digit(c) || c == ' ' || ('a' <= c <= 'z') || ('A' <= c <= 'Z'),
        ),
    ensures
        one_piece::<C>(x, seq![' '] + w, y),
{
    let f = |c: char| punct(c);
    let h = |c: char| digit(c) || c == ' ' || ('a' <= c <= 'z') || ('A' <= c <= 'Z');
    let v = seq![' '] + w;
    let x1 = x.push(' ');
    assert(x + v + y =~= x1 + w + y);
    assert(x + v =~= x1 + w);
    assert(x1 + w + y =~= x1 + (w + y));
    assert((w + y)[0] == w[0]);
    assert(f(w[0]));
    lemma_behind::<C>(x, ' ', w + y);
    assert forall|i: int| 0 <= i < w.len() implies of_class::<C>(Class::Punct, #[trigger] w[i]) by {
        assert(f(w[i]));
        lemma_punct::<C>(w[i]);
    }
    if y.len() > 0 {
        assert(h(y[0]));
        lemma_punct::<C>(y[0]);
    }
    lemma_run::<C>(x1, w, y, Class::Punct);
    lemma_run::<C>(x1 + w, seq![], y, Class::Trailing);
    assert(x1 + w + Seq::<char>::empty() =~= x1 + w);
    lemma_member::<C>(x1, w + y, Class::Punct);
    let b = text::utf8(x + v + y);
    let p = text::utf8(x).len() as int;
    assert(rules::punct_byte::<C>(b[p + 1]));
    assert(!util::ascii_letter(b[p + 1]) && !util::ascii_digit(b[p + 1]));
}

// ---- contractions ----

/// The character is this letter, or, where case does not matter, its capital.
pub open spec fn is_letter_of(c: char, low: char, up: char, either: bool) -> bool {
    c == low || (either && c == up)
}

/// `'s`, `'t`, `'d`, `'m`, `'ll`, `'ve` or `'re`.
pub open spec fn contraction(t: Seq<char>, either: bool) -> bool {
    ||| {
        &&& t.len() == 2
        &&& t[0] == '\''
        &&& (is_letter_of(t[1], 's', 'S', either) || is_letter_of(t[1], 't', 'T', either)
            || is_letter_of(t[1], 'd', 'D', either) || is_letter_of(t[1], 'm', 'M', either))
    }
    ||| {
        &&& t.len() == 3
        &&& t[0] == '\''
        &&& ((is_letter_of(t[1], 'l', 'L', either) && is_letter_of(t[2], 'l', 'L', either)) || (
        is_letter_of(t[1], 'v', 'V', either) && is_letter_of(t[2], 'e', 'E', either)) || (
        is_letter_of(t[1], 'r', 'R', either) && is_letter_of(t[2], 'e', 'E', either)))
    }
}

/// A contraction as long as it is found.
proof fn lemma_contraction<C: PretokConfig>(x: Seq<char>, t: Seq<char>, y: Seq<char>)
    requires
        C::CONTRACTION_MODE != ContractionMode::Absent,
        contraction(t, C::CONTRACTION_CASE == ContractionCase::Insensitive),
    ensures
        rules::contraction_len::<C>(text::utf8(x + t + y), text::utf8(x).len() as int) == t.len(),
        text::utf8(x + t).len() == text::utf8(x).len() + t.len(),
        text::utf8(x + t + y)[text::utf8(x).len() as int] == 0x27,
{
    let b = text::utf8(x + t + y);
    let p = text::utf8(x).len() as int;
    text::lemma_utf8_concat(x, t);
    text::lemma_utf8_concat(x + t, y);
    assert(is_ascii_chars(t));
    is_ascii_chars_encode_utf8(t);
    assert(b[p] == text::utf8(t)[0]);
    assert(b[p + 1] == text::utf8(t)[1]);
    if t.len() == 3 {
        assert(b[p + 2] == text::utf8(t)[2]);
    }
    assert(0x53u8 | 0x20u8 == 0x73u8 && 0x73u8 | 0x20u8 == 0x73u8 && 0x54u8 | 0x20u8 == 0x74u8
        && 0x74u8 | 0x20u8 == 0x74u8 && 0x44u8 | 0x20u8 == 0x64u8 && 0x64u8 | 0x20u8 == 0x64u8
        && 0x4du8 | 0x20u8 == 0x6du8 && 0x6du8 | 0x20u8 == 0x6du8 && 0x4cu8 | 0x20u8 == 0x6cu8
        && 0x6cu8 | 0x20u8 == 0x6cu8 && 0x56u8 | 0x20u8 == 0x76u8 && 0x76u8 | 0x20u8 == 0x76u8
        && 0x52u8 | 0x20u8 == 0x72u8 && 0x72u8 | 0x20u8 == 0x72u8 && 0x45u8 | 0x20u8 == 0x65u8
        && 0x65u8 | 0x20u8 == 0x65u8) by (bit_vector);
}

/// Where contractions stand alone, each is a piece of its own, whatever
/// follows it.
pub proof fn law_contraction_stands_alone<C: PretokConfig>(
    x: Seq<char>,
    t: Seq<char>,
    y: Seq<char>,
)
    requires
        C::CONTRACTION_MODE == ContractionMode::Standalone,
        contraction(t, C::CONTRACTION_CASE == ContractionCase::Insensitive),
    ensures
        one_piece::<C>(x, t, y),
{
    lemma_contraction::<C>(x, t, y);
}

/// Where contractions are suffixes, each belongs to the word in front of it.
pub proof fn law_contraction_belongs_to_the_word<C: PretokConfig>(
    x: Seq<char>,
    w: Seq<char>,
    t: Seq<char>,
    y: Seq<char>,
)
    requires
        C::CONTRACTION_MODE == ContractionMode::Suffix,
        contraction(t, C::CONTRACTION_CASE == ContractionCase::Insensitive),
        w.len() > 0,
        all(w, |c: char| small(c)),
    ensures
        one_piece::<C>(x, w + t, y),
{
    lemma_word_in_front::<C>(x, w, t + y);
    assert(x + w + (t + y) =~= x + w + t + y);
    assert(x + (w + t) + y =~= x + w + t + y);
    assert(x + (w + t) =~= x + w + t);
    lemma_contraction::<C>(x + w, t, y);
}

/// A word of small letters in front of an apostrophe ends there, but for the
/// contraction that it may take.
proof fn lemma_word_in_front<C: PretokConfig>(x: Seq<char>, w: Seq<char>, y: Seq<char>)
    requires
        w.len() > 0,
        all(w, |c: char| small(c)),
        y.len() > 0,
        y[0] == '\'',
    ensures
        ({
            let b = text::utf8(x + w + y);
            rules::piece_end::<C>(b, text::utf8(x).len() as int) == rules::with_suffix::<C>(
                b,
                text::utf8(x + w).len() as int,
            )
        }),
{
    let f = |c: char| small(c);
    assert(f(w[0]));
    lemma_first::<C>(x, w, y);
    lemma_kinds::<C>(w[0]);
    let rest = w.drop_first();
    let k = if C::LETTER_MODE == LetterMode::CamelCase {
        Class::Lower
    } else {
        Class::Letter
    };
    assert forall|i: int| 0 <= i < rest.len() implies of_class::<C>(k, #[trigger] rest[i]) by {
        assert(f(w[i + 1]));
        lemma_kinds::<C>(w[i + 1]);
    }
    lemma_run::<C>(x.push(w[0]), rest, y, k);
}

/// Where contractions are no suffixes, a word ends in front of an apostrophe.
pub proof fn law_apostrophe_parts_words<C: PretokConfig>(x: Seq<char>, w: Seq<char>, y: Seq<char>)
    requires
        C::CONTRACTION_MODE != ContractionMode::Suffix,
        w.len() > 0,
        all(w, |c: char| small(c)),
        y.len() > 0,
        y[0] == '\'',
    ensures
        one_piece::<C>(x, w, y),
{
    lemma_word_in_front::<C>(x, w, y);
}

/// Where case matters, an apostrophe in front of capitals is no contraction:
/// it stands in front of the word.
pub proof fn law_capitals_are_no_contraction<C: PretokConfig>(
    x: Seq<char>,
    w: Seq<char>,
    y: Seq<char>,
)
    requires
        C::CONTRACTION_CASE == ContractionCase::Sensitive,
        C::LETTER_MODE != LetterMode::CamelCase,
        C::CONTRACTION_MODE != ContractionMode::Suffix,
        w.len() > 0,
        all(w, |c: char| 'A' <= c <= 'Z'),
        parts_word(y),
    ensures
        one_piece::<C>(x, seq!['\''] + w, y),
{
    let f = |c: char| 'A' <= c <= 'Z';
    assert(f(w[0]));
    let v = seq!['\''] + w;
    assert(x + v + y =~= x.push('\'') + (w + y));
    assert((w + y)[0] == w[0]);
    lemma_behind::<C>(x, '\'', w + y);
    let x2 = x.push('\'').push(w[0]);
    let rest = w.drop_first();
    assert forall|i: int| 0 <= i < rest.len() implies of_class::<C>(
        Class::Letter,
        #[trigger] rest[i],
    ) && of_class::<C>(Class::AsciiLetter, rest[i]) by {
        assert(f(w[i + 1]));
    }
    assert(x2 + rest + y =~= x + v + y);
    assert(x2 + rest =~= x + v);
    lemma_parts::<C>(y, Class::AsciiLetter);
    lemma_parts::<C>(y, Class::Letter);
    text::lemma_utf8_push(x.push('\''), w[0]);
    text::lemma_utf8_ascii(w[0]);
    lemma_run::<C>(x2, rest, y, Class::AsciiLetter);
    lemma_run::<C>(x2, rest, y, Class::Letter);
}

// ---- punctuation outside ASCII ----

/// A punctuation character or a symbol outside ASCII.
pub open spec fn far_symbol(c: char) -> bool {
    &&& c as u32 >= 0x80
    &&& util::general_category(c)[0] == 'P' || util::general_category(c)[0] == 'S'
    &&& !util::char_is_alphabetic(c)
    &&& !util::char_is_numeric(c)
    &&& !util::char_is_whitespace(c)
}

proof fn lemma_symbols<C: PretokConfig>(c: char)
    requires
        far_symbol(c),
    ensures
        !rules::letter_char::<C>(c),
        util::punct_or_symbol(c),
        of_class::<C>(Class::Punct, c),
        !of_class::<C>(Class::Trailing, c),
        !of_class::<C>(Class::Letter, c),
        !of_class::<C>(Class::Number, c),
        !of_class::<C>(Class::Space, c),
{
}

/// Symbols in a row are one piece, and a digit or a space ends it.
pub proof fn law_far_symbols<C: PretokConfig>(x: Seq<char>, w: Seq<char>, y: Seq<char>)
    requires
        w.len() > 0,
        all(w, |c: char| far_symbol(c)),
        then_comes(y, |c: char| digit(c) || c == ' '),
    ensures
        one_piece::<C>(x, w, y),
{
    let f = |c: char| far_symbol(c);
    let h = |c: char| digit(c) || c == ' ';
    assert(f(w[0]));
    lemma_symbols::<C>(w[0]);
    assert(x + w + y =~= x + (w + y));
    lemma_at(x, w + y);
    assert((w + y)[0] == w[0]);
    let x1 = x.push(w[0]);
    let rest = w.drop_first();
    assert forall|i: int| 0 <= i < rest.len() implies of_class::<C>(
        Class::Punct,
        #[trigger] rest[i],
    ) by {
        assert(f(w[i + 1]));
        lemma_symbols::<C>(w[i + 1]);
    }
    assert(x1 + rest + y =~= x + w + y);
    assert(x1 + rest =~= x + w);
    if y.len() > 0 {
        assert(h(y[0]));
        lemma_punct::<C>(y[0]);
    }
    lemma_run::<C>(x1, rest, y, Class::Punct);
    lemma_run::<C>(x + w, seq![], y, Class::Trailing);
    assert(x + w + Seq::<char>::empty() =~= x + w);
    assert(x1 + (rest + y) =~= x + w + y);
    lemma_at(x1, rest + y);
    if rest.len() > 0 {
        assert((rest + y)[0] == w[1]);
        assert(f(w[1]));
        lemma_symbols::<C>(w[1]);
    } else if y.len() > 0 {
        assert((rest + y)[0] == y[0]);
    }
}

/// A symbol belongs to the word of ASCII letters behind it where any character
/// may stand in front of a word; else it is a piece of its own.
pub proof fn law_symbol_in_front_of_a_word<C: PretokConfig>(
    x: Seq<char>,
    c: char,
    w: Seq<char>,
    y: Seq<char>,
)
    requires
        C::LETTER_MODE != LetterMode::CamelCase,
        far_symbol(c),
        w.len() > 0,
        all(w, |c: char| 'a' <= c <= 'z' || 'A' <= c <= 'Z'),
        parts_word(y),
    ensures
        C::PUNCT_PREFIX_MODE == PunctPrefixMode::Any ==> one_piece::<C>(x, seq![c] + w, y),
        C::PUNCT_PREFIX_MODE != PunctPrefixMode::Any ==> one_piece::<C>(x, seq![c], w + y),
{
    let f = |c: char| 'a' <= c <= 'z' || 'A' <= c <= 'Z';
    assert(f(w[0]));
    lemma_symbols::<C>(c);
    let v = seq![c] + w;
    let x1 = x.push(c);
    assert(x + v + y =~= x + (v + y));
    assert(x + seq![c] + (w + y) =~= x + v + y);
    lemma_at(x, v + y);
    assert((v + y)[0] == c);
    assert(x1 + (w + y) =~= x + v + y);
    lemma_at(x1, w + y);
    assert((w + y)[0] == w[0]);
    lemma_punct::<C>(w[0]);
    lemma_member::<C>(x1, w + y, Class::Punct);
    lemma_member::<C>(x1, w + y, Class::Trailing);
    assert(x + seq![c] =~= x1);
    let x2 = x1.push(w[0]);
    let rest = w.drop_first();
    assert forall|i: int| 0 <= i < rest.len() implies of_class::<C>(
        Class::Letter,
        #[trigger] rest[i],
    ) by {
        assert(f(w[i + 1]));
    }
    assert(x2 + rest + y =~= x + v + y);
    assert(x2 + rest =~= x + v);
    lemma_parts::<C>(y, Class::Letter);
    text::lemma_utf8_push(x1, w[0]);
    text::lemma_utf8_ascii(w[0]);
    lemma_run::<C>(x2, rest, y, Class::Letter);
    lemma_no_suffix::<C>(x + v, y);
}

/// Where any character may stand in front of a word, so may an apostrophe
/// that starts no contraction: the piece ends where the word does.
pub proof fn law_apostrophe_in_front_of_a_word<C: PretokConfig>(x: Seq<char>, y: Seq<char>)
    requires
        C::LETTER_MODE == LetterMode::CamelCase ==> C::CONTRACTION_MODE == ContractionMode::Suffix,
        C::PUNCT_PREFIX_MODE == PunctPrefixMode::Any,
        y.len() > 0,
        'a' <= y[0] <= 'z',
        y[0] != 's' && y[0] != 't' && y[0] != 'd' && y[0] != 'm' && y[0] != 'l' && y[0] != 'v'
            && y[0] != 'r',
    ensures
        ({
            let b = text::utf8(x.push('\'') + y);
            let p = text::utf8(x).len() as int;
            rules::piece_end::<C>(b, p) == rules::piece_end::<C>(b, p + 1)
        }),
{
    let b = text::utf8(x.push('\'') + y);
    let p = text::utf8(x).len() as int;
    lemma_behind::<C>(x, '\'', y);
    let k = b[p + 1];
    assert(0x61 <= k <= 0x7a ==> k | 0x20 == k) by (bit_vector);
}

/// The slashes behind the newlines that follow punctuation belong to the
/// punctuation for those pretokenizers that take them.
pub proof fn law_slashes_behind_newlines<C: PretokConfig>(
    x: Seq<char>,
    w: Seq<char>,
    n: Seq<char>,
    y: Seq<char>,
)
    requires
        C::PUNCT_TRAILING != PunctTrailing::Absent,
        w.len() > 0,
        all(w, |c: char| punct(c)),
        w[0] != '\'',
        n.len() > 0,
        all(n, |c: char| c == '\n' || c == '\r'),
        then_comes(y, |c: char| digit(c) || c == ' '),
    ensures
        C::PUNCT_TRAILING == PunctTrailing::NewlinesAndSlashes ==> one_piece::<C>(
            x,
            w + n + seq!['/'],
            y,
        ),
        C::PUNCT_TRAILING == PunctTrailing::Newlines ==> one_piece::<C>(x, w + n, seq!['/'] + y),
{
    let f = |c: char| punct(c);
    let g = |c: char| c == '\n' || c == '\r';
    let h = |c: char| digit(c) || c == ' ';
    let z = seq!['/'] + y;
    let t = x + w + n + z;
    let b = text::utf8(t);
    let p = text::utf8(x).len() as int;
    assert(t =~= x + (w + n + z));
    assert(t =~= x + (w + n) + z);
    assert(t =~= x + (w + n + seq!['/']) + y);
    assert(t =~= x + w + (n + z));
    lemma_at(x, w + n + z);
    assert((w + n + z)[0] == w[0]);
    assert(f(w[0]));
    lemma_punct::<C>(w[0]);
    let x1 = x.push(w[0]);
    let rest = w.drop_first();
    assert forall|i: int| 0 <= i < rest.len() implies of_class::<C>(
        Class::Punct,
        #[trigger] rest[i],
    ) by {
        assert(f(w[i + 1]));
        lemma_punct::<C>(w[i + 1]);
    }
    assert(x1 + rest + (n + z) =~= t);
    assert(x1 + rest =~= x + w);
    assert(g(n[0]));
    lemma_punct::<C>(n[0]);
    assert((n + z)[0] == n[0]);
    lemma_punct::<C>('/');
    if y.len() > 0 {
        assert(h(y[0]));
        lemma_punct::<C>(y[0]);
    }
    lemma_run::<C>(x1, rest, n + z, Class::Punct);
    assert forall|i: int| 0 <= i < n.len() implies of_class::<C>(
        Class::Trailing,
        #[trigger] n[i],
    ) by {
        assert(g(n[i]));
        lemma_punct::<C>(n[i]);
    }
    if C::PUNCT_TRAILING == PunctTrailing::Newlines {
        assert(z[0] == '/');
        lemma_run::<C>(x + w, n, z, Class::Trailing);
        assert(x + w + n =~= x + (w + n));
    } else {
        let m = n + seq!['/'];
        assert forall|i: int| 0 <= i < m.len() implies of_class::<C>(
            Class::Trailing,
            #[trigger] m[i],
        ) by {
            if i < n.len() {
                assert(m[i] == n[i]);
            } else {
                assert(m[i] == '/');
            }
        }
        assert(x + w + m + y =~= t);
        lemma_run::<C>(x + w, m, y, Class::Trailing);
        assert(x + w + m =~= x + (w + n + seq!['/']));
    }
    lemma_next::<C>(x1, rest + n + z);
    assert(x1 + (rest + n + z) =~= t);
    if rest.len() > 0 {
        assert((rest + n + z)[0] == w[1]);
        assert(f(w[1]));
    } else {
        assert((rest + n + z)[0] == n[0]);
    }
}

// ---- newlines that are whitespace like any other ----

/// Where whitespace does not end behind its newlines, the newlines at the end
/// of a text are one piece, and of those in front of a letter the last one is
/// a piece of its own.
pub proof fn law_newlines_like_spaces<C: PretokConfig>(x: Seq<char>, n: nat, y: Seq<char>)
    requires
        C::WS_PATTERN == WsPattern::Gpt2,
        n >= 2,
        then_comes(y, |c: char| 'a' <= c <= 'z'),
    ensures
        y.len() == 0 ==> one_piece::<C>(x, times('\n', n), y),
        y.len() > 0 ==> one_piece::<C>(x, times('\n', (n - 1) as nat), seq!['\n'] + y),
{
    let h = |c: char| 'a' <= c <= 'z';
    let w = times('\n', n);
    let b = text::utf8(x + w + y);
    let p = text::utf8(x).len() as int;
    lemma_ascii_times('\n', n);
    text::lemma_utf8_concat(x, w);
    text::lemma_utf8_concat(x + w, y);
    lemma_at(x + w, y);
    if y.len() > 0 {
        assert(h(y[0]));
    }
    lemma_run::<C>(x, w, y, Class::Space);
    assert(forall|i: int| p <= i < p + n ==> b[i] == text::utf8(w)[i - p]);
    assert(b[p] == 0x0a && b[p + n - 1] == 0x0a);
    assert(!is_continuation_byte(0x0au8));
    if y.len() > 0 {
        let v = times('\n', (n - 1) as nat);
        lemma_ascii_times('\n', (n - 1) as nat);
        text::lemma_utf8_concat(x, v);
        assert(x + v + (seq!['\n'] + y) =~= x + w + y);
        lemma_numbers::<C>(y[0]);
        lemma_member::<C>(x + w, y, Class::Number);
    }
}

/// Several spaces in front of a letter of Chinese or Japanese stay whole for
/// DeepSeek; for the others the last is left to the word.
pub proof fn law_spaces_in_front_of_cjk<C: PretokConfig>(x: Seq<char>, n: nat, y: Seq<char>)
    requires
        n >= 2,
        y.len() > 0,
        0x4e00 <= y[0] as u32 <= 0x9fa5 || 0x3040 <= y[0] as u32 <= 0x30ff,
        caseless(y[0]),
        !util::char_is_numeric(y[0]),
    ensures
        C::WS_EXCEPTION == WsException::Cjk && C::WS_PATTERN == WsPattern::Cl100k ==> one_piece::<
            C,
        >(x, times(' ', n), y),
        C::WS_EXCEPTION != WsException::Cjk ==> one_piece::<C>(
            x,
            times(' ', (n - 1) as nat),
            seq![' '] + y,
        ),
{
    let w = times(' ', n);
    let v = times(' ', (n - 1) as nat);
    let b = text::utf8(x + w + y);
    let p = text::utf8(x).len() as int;
    lemma_ascii_times(' ', n);
    lemma_ascii_times(' ', (n - 1) as nat);
    text::lemma_utf8_concat(x, w);
    text::lemma_utf8_concat(x, v);
    text::lemma_utf8_concat(x + w, y);
    assert(x + v + (seq![' '] + y) =~= x + w + y);
    lemma_at(x + w, y);
    lemma_not_space::<C>(y[0]);
    lemma_run::<C>(x, w, y, Class::Space);
    assert(forall|i: int| p <= i < p + n ==> b[i] == text::utf8(w)[i - p]);
    assert(b[p] == 0x20 && b[p + 1] == 0x20);
    lemma_no_newline(b, p, p + n);
    assert(!is_continuation_byte(0x20u8));
}

proof fn lemma_not_space<C: PretokConfig>(c: char)
    requires
        0x4e00 <= c as u32 <= 0x9fa5 || 0x3040 <= c as u32 <= 0x30ff,
    ensures
        !of_class::<C>(Class::Space, c),
{
}

// ---- marks, formats and numbers outside ASCII ----

/// Where words break at their capitals, marks behind capitals lead on to the
/// small letters of the word.
pub proof fn law_marks_behind_capitals<C: PretokConfig>(
    x: Seq<char>,
    u: Seq<char>,
    m: Seq<char>,
    l: Seq<char>,
    y: Seq<char>,
)
    requires
        C::LETTER_MODE == LetterMode::CamelCase,
        u.len() > 0,
        all(u, |c: char| capital(c)),
        m.len() > 0,
        all(m, |c: char| mark(c) && !util::char_is_uppercase(c)),
        all(l, |c: char| small(c)),
        parts_word(y),
    ensures
        one_piece::<C>(x, u + m + l, y),
{
    let f = |c: char| capital(c);
    let g = |c: char| mark(c) && !util::char_is_uppercase(c);
    let h = |c: char| small(c);
    let v = m + l;
    let w = u + m + l;
    assert(w =~= u + v);
    assert(w[0] == u[0]);
    assert(f(u[0]));
    lemma_first::<C>(x, w, y);
    lemma_kinds::<C>(w[0]);
    lemma_no_suffix::<C>(x + w, y);
    lemma_parts::<C>(y, Class::Lower);
    lemma_parts::<C>(y, Class::Upper);
    lemma_parts::<C>(y, Class::Descent);
    let x1 = x.push(w[0]);
    let u1 = u.drop_first();
    assert forall|i: int| 0 <= i < u1.len() implies of_class::<C>(
        Class::Upper,
        #[trigger] u1[i],
    ) by {
        assert(f(u[i + 1]));
        lemma_kinds::<C>(u[i + 1]);
    }
    assert forall|i: int| 0 <= i < v.len() implies of_class::<C>(Class::Lower, #[trigger] v[i]) by {
        if i < m.len() {
            assert(g(m[i]));
            lemma_kinds::<C>(m[i]);
        } else {
            assert(h(l[i - m.len()]));
            lemma_kinds::<C>(l[i - m.len()]);
        }
    }
    assert(g(m[0]));
    assert(v[0] == m[0]);
    lemma_mark_leads_on::<C>(m[0]);
    lemma_upper_then_lower::<C>(x1, u1, v, y);
    assert(x1 + u1 + v + y =~= x + w + y);
    assert(x1 + u1 + v =~= x + w);
}

proof fn lemma_mark_leads_on<C: PretokConfig>(c: char)
    requires
        mark(c),
        !util::char_is_uppercase(c),
    ensures
        of_class::<C>(Class::Descent, c),
        !of_class::<C>(Class::Upper, c),
{
}

/// A character outside ASCII that is no letter, mark, number, punctuation,
/// symbol or whitespace, such as one for formatting.
pub open spec fn formless(c: char) -> bool {
    &&& c as u32 >= 0x80
    &&& util::general_category(c)[0] == 'C'
    &&& !util::char_is_alphabetic(c)
    &&& !util::char_is_numeric(c)
    &&& !util::char_is_whitespace(c)
}

/// Where punctuation is told by its category alone, a formless character
/// stands in front of the word behind it.
pub proof fn law_formless_in_front_of_a_word<C: PretokConfig>(
    x: Seq<char>,
    c: char,
    w: Seq<char>,
    y: Seq<char>,
)
    requires
        C::PUNCT_CLASS == PunctClass::PunctSymbolOnly,
        C::LETTER_MODE != LetterMode::CamelCase,
        formless(c),
        all(w, |c: char| letter(c)),
        parts_word(y),
        w.len() == 0 ==> y.len() == 0,
    ensures
        one_piece::<C>(x, seq![c] + w, y),
{
    let f = |c: char| letter(c);
    let v = seq![c] + w;
    let x1 = x.push(c);
    assert(x + v + y =~= x + (v + y));
    lemma_at(x, v + y);
    assert((v + y)[0] == c);
    assert(x1 + (w + y) =~= x + v + y);
    lemma_at(x1, w + y);
    assert(x1 + w =~= x + v);
    assert(x1 + w + y =~= x + v + y);
    if w.len() > 0 {
        assert((w + y)[0] == w[0]);
        assert(f(w[0]));
        lemma_kinds::<C>(w[0]);
        lemma_first::<C>(x1, w, y);
        let x2 = x1.push(w[0]);
        let rest = w.drop_first();
        assert forall|i: int| 0 <= i < rest.len() implies of_class::<C>(
            Class::Letter,
            #[trigger] rest[i],
        ) by {
            assert(f(w[i + 1]));
            lemma_kinds::<C>(w[i + 1]);
        }
        lemma_parts::<C>(y, Class::Letter);
        lemma_run::<C>(x2, rest, y, Class::Letter);
        lemma_no_suffix::<C>(x + v, y);
    } else {
        assert(w + y =~= Seq::<char>::empty());
        assert(x + v =~= x1);
    }
}

/// A symbol belongs to the word behind it, in any script, where any character
/// may stand in front of a word.
pub proof fn law_symbol_in_front_of_a_far_word<C: PretokConfig>(
    x: Seq<char>,
    c: char,
    w: Seq<char>,
    y: Seq<char>,
)
    requires
        C::PUNCT_PREFIX_MODE == PunctPrefixMode::Any,
        C::PUNCT_CLASS == PunctClass::NegatedAlnum,
        far_symbol(c),
        w.len() > 0,
        w[0] as u32 >= 0x80,
        all(w, |c: char| small(c)),
        parts_word(y),
    ensures
        one_piece::<C>(x, seq![c] + w, y),
{
    let f = |c: char| small(c);
    assert(f(w[0]));
    lemma_symbols::<C>(c);
    lemma_kinds::<C>(w[0]);
    let v = seq![c] + w;
    let x1 = x.push(c);
    assert(x + v + y =~= x + (v + y));
    lemma_at(x, v + y);
    assert((v + y)[0] == c);
    assert(x1 + (w + y) =~= x + v + y);
    lemma_at(x1, w + y);
    assert((w + y)[0] == w[0]);
    assert(x1 + w =~= x + v);
    assert(x1 + w + y =~= x + v + y);
    let k = if C::LETTER_MODE == LetterMode::CamelCase {
        Class::Lower
    } else {
        Class::Letter
    };
    assert forall|i: int| 0 <= i < w.len() implies of_class::<C>(k, #[trigger] w[i]) by {
        assert(f(w[i]));
        lemma_kinds::<C>(w[i]);
    }
    lemma_parts::<C>(y, k);
    lemma_run::<C>(x1, w, y, k);
    lemma_no_suffix::<C>(x + v, y);
}

/// A space stands in front of a number outside ASCII too, where the config
/// lets it.
pub proof fn law_space_in_front_of_a_far_number<C: PretokConfig>(x: Seq<char>, y: Seq<char>)
    requires
        C::SPACE_PREFIXES_DIGITS,
        y.len() > 0,
        far_number(y[0]),
    ensures
        ({
            let b = text::utf8(x.push(' ') + y);
            let p = text::utf8(x).len() as int;
            rules::piece_end::<C>(b, p) == rules::piece_end::<C>(b, p + 1)
        }),
{
    lemma_behind::<C>(x, ' ', y);
    lemma_numbers::<C>(y[0]);
}

/// An apostrophe stands in front of a word that starts outside ASCII, but
/// where only ASCII may stand behind it.
pub proof fn law_apostrophe_in_front_of_a_far_word<C: PretokConfig>(
    x: Seq<char>,
    w: Seq<char>,
    y: Seq<char>,
)
    requires
        w.len() > 0,
        w[0] as u32 >= 0x80,
        all(w, |c: char| letter(c)),
        parts_word(y),
    ensures
        C::PUNCT_PREFIX_MODE != PunctPrefixMode::AsciiOnly ==> one_piece::<C>(
            x,
            seq!['\''] + w,
            y,
        ),
        C::PUNCT_PREFIX_MODE == PunctPrefixMode::AsciiOnly && C::LETTER_MODE
            != LetterMode::CamelCase ==> one_piece::<C>(x, seq!['\''], w + y),
{
    let f = |c: char| letter(c);
    assert(f(w[0]));
    let v = seq!['\''] + w;
    let x1 = x.push('\'');
    let b = text::utf8(x + v + y);
    let p = text::utf8(x).len() as int;
    assert(x + v + y =~= x1 + (w + y));
    assert(x + seq!['\''] + (w + y) =~= x + v + y);
    assert(x + seq!['\''] =~= x1);
    assert((w + y)[0] == w[0]);
    lemma_behind::<C>(x, '\'', w + y);
    lemma_kinds::<C>(w[0]);
    lemma_letter_is_no_punct::<C>(w[0]);
    let k = b[p + 1];
    assert(k >= 0x80 ==> (k | 0x20) >= 0x80) by (bit_vector);
    assert forall|i: int| 0 <= i < w.len() implies of_class::<C>(
        Class::Letter,
        #[trigger] w[i],
    ) by {
        assert(f(w[i]));
        lemma_kinds::<C>(w[i]);
    }
    assert(x1 + w + y =~= x + v + y);
    assert(x1 + w =~= x + v);
    lemma_parts::<C>(y, Class::Letter);
    lemma_run::<C>(x1, w, y, Class::Letter);
    lemma_no_suffix::<C>(x + v, y);
    lemma_member::<C>(x1, w + y, Class::Punct);
    lemma_member::<C>(x1, w + y, Class::Trailing);
}

} // verus!
