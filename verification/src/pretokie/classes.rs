//! Non-ASCII characters of a clear class, written with ASCII characters of
//! that class.
//!
//! Every byte of a classified character carries the character's class, so
//! bytes stand next to each other as characters do, and what the bytes around
//! a position tell of ASCII text they tell of such text too: the pieces of a
//! text are the pieces of its flat form.
use super::algebra;
use super::batch;
use super::config::{
    ContractionMode, DigitMode, LetterMode, PretokConfig, PunctClass, PunctPrefixMode,
    PunctTrailing, WsException,
};
use super::rules;
use super::rules::Class;
use super::util;
use super::util::{decode_utf8, is_ascii_letter, is_digit, is_unicode_letter, is_unicode_mark};
use crate::text;
use vstd::prelude::*;
use vstd::utf8::*;

verus! {

/// Effective class of a non-ASCII character under a config. `Defer` marks
/// characters whose pieces the bytes around them do not tell:
/// - whitespace,
/// - letters, where words mind case or take contractions,
/// - numerics, unless any number of them make one piece,
/// - punctuation in front of a word that it may prefix, unless a blank or ASCII
///   punctuation before it keeps it from that,
/// - all of them under configs that take only ASCII prefixes.
#[derive(Clone, Copy, PartialEq, Eq, Structural)]
pub enum UClass {
    Letter,
    Number,
    Punct,
    Defer,
}

/// Under the config, non-ASCII characters make pieces as ASCII characters do.
pub open spec fn alike<C: PretokConfig>() -> bool {
    &&& C::PUNCT_PREFIX_MODE != PunctPrefixMode::AsciiOnly
    &&& C::WS_EXCEPTION != WsException::Cjk
    &&& C::PUNCT_CLASS == PunctClass::NegatedAlnum
}

/// Under the config, all letters make words as any others do.
pub open spec fn plain_words<C: PretokConfig>() -> bool {
    C::LETTER_MODE != LetterMode::CamelCase && C::CONTRACTION_MODE != ContractionMode::Suffix
}

/// The character may be part of a word.
pub open spec fn in_words<C: PretokConfig>(c: char) -> bool {
    rules::letter_char::<C>(c) || (C::LETTER_MODE == LetterMode::CamelCase && (util::unicode_letter(
        c,
    ) || util::char_is_lowercase(c) || util::char_is_uppercase(c)))
}

/// The class of a non-ASCII character.
pub open spec fn class_of<C: PretokConfig>(c: char) -> UClass {
    let number = util::char_is_numeric(c);
    let space = util::char_is_whitespace(c);
    if !alike::<C>() || space {
        UClass::Defer
    } else if in_words::<C>(c) {
        if number || !plain_words::<C>() {
            UClass::Defer
        } else {
            UClass::Letter
        }
    } else if number {
        if C::DIGIT_MODE == DigitMode::Unlimited {
            UClass::Number
        } else {
            UClass::Defer
        }
    } else {
        UClass::Punct
    }
}

/// A letter stands at `p`.
pub open spec fn letter_at<C: PretokConfig>(b: Seq<u8>, p: int) -> bool {
    util::ascii_letter(b[p]) || (b[p] >= 0x80 && rules::letter_char::<C>(util::char_at(b, p)))
}

/// The class of the non-ASCII character at `p`, where it stands.
pub open spec fn class_at<C: PretokConfig>(b: Seq<u8>, p: int) -> UClass {
    let k = class_of::<C>(util::char_at(b, p));
    let q = util::after(b, p);
    if k is Punct && C::PUNCT_PREFIX_MODE != PunctPrefixMode::SpaceOnly && q < b.len()
        && letter_at::<C>(b, q) && !algebra::goes_along::<C>(b, p) {
        UClass::Defer
    } else {
        k
    }
}

/// The start of the character that the byte at `i` belongs to.
pub open spec fn lead(b: Seq<u8>, i: int) -> int
    decreases i,
{
    if i > 0 && is_continuation_byte(b[i]) {
        lead(b, i - 1)
    } else {
        i
    }
}

/// A byte of a character of the class; `x` where the class says nothing.
pub open spec fn stand_in(k: UClass, x: u8) -> u8 {
    match k {
        UClass::Letter => 0x61,
        UClass::Number => 0x30,
        UClass::Punct => 0x2e,
        UClass::Defer => x,
    }
}

/// The byte of the flat form.
pub open spec fn flat_byte<C: PretokConfig>(b: Seq<u8>, i: int) -> u8 {
    if b[i] < 0x80 {
        b[i]
    } else {
        stand_in(class_at::<C>(b, lead(b, i)), b[i])
    }
}

/// The flat form of a text: characters of a clear class are written with ASCII
/// characters of that class, as many as they have bytes.
pub open spec fn flat<C: PretokConfig>(b: Seq<u8>) -> Seq<u8> {
    Seq::new(b.len(), |i: int| flat_byte::<C>(b, i))
}

// ---- characters of the flat form ----

/// The bytes of a character belong to it.
proof fn lemma_lead(b: Seq<u8>, p: int, i: int)
    requires
        util::boundary(b, p),
        p <= i < util::after(b, p),
        p < b.len(),
    ensures
        lead(b, i) == p,
    decreases i,
{
    util::lemma_after(b, p);
    if i > p {
        lemma_lead(b, p, i - 1);
    }
}

/// The bytes of a character in the flat form.
proof fn lemma_flat_char<C: PretokConfig>(b: Seq<u8>, p: int)
    requires
        util::boundary(b, p),
        p < b.len(),
    ensures
        b[p] < 0x80 ==> flat::<C>(b)[p] == b[p],
        b[p] >= 0x80 ==> forall|i: int|
            p <= i < util::after(b, p) ==> #[trigger] flat::<C>(b)[i] == stand_in(
                class_at::<C>(b, p),
                b[i],
            ),
{
    util::lemma_after(b, p);
    if b[p] >= 0x80 {
        assert forall|i: int| p <= i < util::after(b, p) implies #[trigger] flat::<C>(b)[i]
            == stand_in(class_at::<C>(b, p), b[i]) by {
            lemma_lead(b, p, i);
            assert(i > p ==> is_continuation_byte(b[i]));
        }
    }
}

/// An ASCII character in front of a boundary starts at one.
proof fn lemma_ascii_boundary(v: Seq<u8>, p: int)
    requires
        0 <= p < v.len(),
        v[p] < 0x80,
        util::boundary(v, p + 1),
    ensures
        util::boundary(v, p),
{
    let t = util::tail(v, p);
    assert(t[0] == v[p]);
    assert(pop_first_scalar(t) =~= util::tail(v, p + 1));
}

/// Characters are kept, or are ASCII in the flat form, and boundaries stay
/// boundaries.
proof fn lemma_flat_boundary<C: PretokConfig>(b: Seq<u8>, p: int)
    requires
        util::boundary(b, p),
    ensures
        util::boundary(flat::<C>(b), p),
        p < b.len() && b[p] >= 0x80 && class_at::<C>(b, p) is Defer ==> {
            &&& flat::<C>(b)[p] == b[p]
            &&& util::char_at(flat::<C>(b), p) == util::char_at(b, p)
        },
    decreases b.len() - p,
{
    let v = flat::<C>(b);
    if p < b.len() {
        util::lemma_after(b, p);
        lemma_flat_char::<C>(b, p);
        let e = util::after(b, p);
        lemma_flat_boundary::<C>(b, e);
        if b[p] < 0x80 {
            lemma_ascii_boundary(v, p);
        } else if class_at::<C>(b, p) is Defer {
            let (t, u) = (util::tail(b, p), util::tail(v, p));
            assert forall|i: int| 0 <= i < e - p implies u[i] == t[i] by {
                assert(v[p + i] == b[p + i]);
            }
            assert(u[0] == t[0]);
            assert(e - p >= 2 ==> u[1] == t[1]);
            assert(e - p >= 3 ==> u[2] == t[2]);
            assert(e - p >= 4 ==> u[3] == t[3]);
            assert(pop_first_scalar(u) =~= util::tail(v, e));
        } else {
            lemma_ascii_boundaries(v, p, e);
        }
    } else {
        assert(util::tail(v, p) =~= util::tail(b, p));
    }
}

/// ASCII characters in front of a boundary start at boundaries.
proof fn lemma_ascii_boundaries(v: Seq<u8>, p: int, e: int)
    requires
        0 <= p <= e <= v.len(),
        forall|i: int| p <= i < e ==> #[trigger] v[i] < 0x80,
        util::boundary(v, e),
    ensures
        forall|i: int| p <= i <= e ==> #[trigger] util::boundary(v, i),
    decreases e - p,
{
    if p < e {
        lemma_ascii_boundaries(v, p + 1, e);
        lemma_ascii_boundary(v, p);
    }
}

// ---- runs ----

/// The classes whose runs end alike in a text and in its flat form.
spec fn common<C: PretokConfig>(k: Class) -> bool {
    ||| k is Letter || k is Number || k is Punct || k is Trailing || k is Newline || k is Space
    ||| C::LETTER_MODE == LetterMode::CamelCase && (k is Lower || k is Upper || k is Descent)
}

/// A run goes on through ASCII characters of its class.
proof fn lemma_pass<C: PretokConfig>(v: Seq<u8>, p: int, e: int, k: Class)
    requires
        0 <= p <= e <= v.len(),
        forall|i: int|
            p <= i < e ==> #[trigger] v[i] < 0x80 && rules::class_byte::<C>(k, v[i]),
    ensures
        rules::run_end::<C>(v, p, k) == rules::run_end::<C>(v, e, k),
    decreases e - p,
{
    if p < e {
        assert(v[p] < 0x80);
        lemma_pass::<C>(v, p + 1, e, k);
    }
}

/// What a character of a clear class is a member of.
proof fn lemma_stand_in<C: PretokConfig>(b: Seq<u8>, p: int, k: Class)
    requires
        util::boundary(b, p),
        p < b.len(),
        b[p] >= 0x80,
        common::<C>(k),
        !(class_at::<C>(b, p) is Defer),
    ensures
        rules::member::<C>(b, p, k) == rules::class_byte::<C>(
            k,
            stand_in(class_at::<C>(b, p), 0),
        ),
{
}

/// Runs end alike in a text and in its flat form.
proof fn lemma_flat_run<C: PretokConfig>(b: Seq<u8>, p: int, k: Class)
    requires
        alike::<C>(),
        util::boundary(b, p),
        common::<C>(k),
    ensures
        rules::run_end::<C>(flat::<C>(b), p, k) == rules::run_end::<C>(b, p, k),
        p < b.len() && b[p] >= 0x80 && !(class_at::<C>(b, p) is Defer)
            && rules::member::<C>(b, p, k) ==> forall|i: int|
            p <= i <= util::after(b, p) ==> #[trigger] rules::run_end::<C>(flat::<C>(b), i, k)
                == rules::run_end::<C>(b, p, k),
    decreases b.len() - p,
{
    let v = flat::<C>(b);
    if p < b.len() {
        util::lemma_after(b, p);
        lemma_flat_char::<C>(b, p);
        lemma_flat_boundary::<C>(b, p);
        let e = util::after(b, p);
        lemma_flat_run::<C>(b, e, k);
        if b[p] >= 0x80 && !(class_at::<C>(b, p) is Defer) {
            lemma_stand_in::<C>(b, p, k);
            assert(v[p] == stand_in(class_at::<C>(b, p), 0));
            if rules::member::<C>(b, p, k) {
                assert forall|i: int| p <= i <= e implies #[trigger] rules::run_end::<C>(v, i, k)
                    == rules::run_end::<C>(v, e, k) by {
                    lemma_pass::<C>(v, i, e, k);
                }
            }
        }
    }
}

/// Runs of a few numerics end alike, where numerics are of no clear class.
proof fn lemma_flat_upto<C: PretokConfig>(b: Seq<u8>, p: int, n: nat)
    requires
        alike::<C>(),
        util::boundary(b, p),
        C::DIGIT_MODE != DigitMode::Unlimited,
    ensures
        rules::run_end_upto::<C>(flat::<C>(b), p, Class::Number, n) == rules::run_end_upto::<C>(
            b,
            p,
            Class::Number,
            n,
        ),
    decreases n,
{
    if p < b.len() && n > 0 {
        util::lemma_after(b, p);
        lemma_flat_char::<C>(b, p);
        lemma_flat_boundary::<C>(b, p);
        lemma_flat_upto::<C>(b, util::after(b, p), (n - 1) as nat);
    }
}

/// Numbers end alike.
proof fn lemma_flat_number<C: PretokConfig>(b: Seq<u8>, p: int)
    requires
        alike::<C>(),
        util::boundary(b, p),
    ensures
        rules::number_end::<C>(flat::<C>(b), p) == rules::number_end::<C>(b, p),
{
    if C::DIGIT_MODE == DigitMode::Unlimited {
        lemma_flat_run::<C>(b, p, Class::Number);
    } else {
        lemma_flat_upto::<C>(b, p, 2);
    }
}

/// Punctuation and what trails it end alike.
proof fn lemma_flat_punct<C: PretokConfig>(b: Seq<u8>, p: int)
    requires
        alike::<C>(),
        util::boundary(b, p),
    ensures
        rules::punct_end::<C>(flat::<C>(b), p) == rules::punct_end::<C>(b, p),
{
    lemma_flat_run::<C>(b, p, Class::Punct);
    rules::lemma_run_end::<C>(b, p, Class::Punct);
    lemma_flat_run::<C>(b, rules::run_end::<C>(b, p, Class::Punct), Class::Trailing);
}

// ---- whitespace ----

/// Whitespace is kept in the flat form.
proof fn lemma_flat_space<C: PretokConfig>(b: Seq<u8>, p: int)
    requires
        util::boundary(b, p),
    ensures
        forall|i: int|
            p <= i < rules::run_end::<C>(b, p, Class::Space) ==> #[trigger] flat::<C>(b)[i] == b[i],
    decreases b.len() - p,
{
    if p < b.len() && rules::member::<C>(b, p, Class::Space) {
        util::lemma_after(b, p);
        lemma_flat_char::<C>(b, p);
        let e = util::after(b, p);
        lemma_flat_space::<C>(b, e);
        assert forall|i: int| p <= i < rules::run_end::<C>(b, p, Class::Space) implies #[trigger] flat::<
            C,
        >(b)[i] == b[i] by {
            if i >= e {
                assert(flat::<C>(b)[i] == b[i]);
            }
        }
    }
}

/// The last character and the last newline of what is kept.
proof fn lemma_same_lasts(b: Seq<u8>, v: Seq<u8>, p: int, e: int)
    requires
        forall|i: int| p <= i < e ==> #[trigger] v[i] == b[i],
    ensures
        rules::last_start(v, p, e) == rules::last_start(b, p, e),
        rules::last_newline_end(v, p, e) == rules::last_newline_end(b, p, e),
    decreases e - p,
{
    if e > p {
        assert(v[e - 1] == b[e - 1]);
        lemma_same_lasts(b, v, p, e - 1);
    }
}

/// Whitespace ends alike.
proof fn lemma_flat_space_end<C: PretokConfig>(b: Seq<u8>, p: int)
    requires
        alike::<C>(),
        util::boundary(b, p),
        p < b.len(),
    ensures
        rules::space_end::<C>(flat::<C>(b), p) == rules::space_end::<C>(b, p),
{
    let v = flat::<C>(b);
    let e = rules::run_end::<C>(b, p, Class::Space);
    lemma_flat_run::<C>(b, p, Class::Space);
    rules::lemma_run_end::<C>(b, p, Class::Space);
    lemma_flat_space::<C>(b, p);
    lemma_same_lasts(b, v, p, e);
    if e < b.len() {
        lemma_flat_char::<C>(b, e);
        lemma_flat_boundary::<C>(b, e);
        if b[e] >= 0x80 && !(class_at::<C>(b, e) is Defer) {
            util::lemma_after(b, e);
            lemma_stand_in::<C>(b, e, Class::Number);
        }
    }
}

// ---- contractions ----

/// Contractions are the same.
proof fn lemma_flat_contraction<C: PretokConfig>(b: Seq<u8>, p: int)
    requires
        0 <= p <= b.len(),
    ensures
        rules::contraction_len::<C>(flat::<C>(b), p) == rules::contraction_len::<C>(b, p),
{
    let v = flat::<C>(b);
    assert(forall|i: int| 0 <= i < b.len() ==> b[i] < 0x80 ==> #[trigger] v[i] == b[i]);
    if p + 1 < b.len() {
        lemma_no_letter::<C>(b, p + 1);
        lemma_no_letter::<C>(b, p + 2);
    }
}

/// What stands for a byte compares with the letters of contractions as the
/// byte does.
proof fn lemma_no_letter<C: PretokConfig>(b: Seq<u8>, i: int)
    requires
        0 <= i,
    ensures
        i < b.len() && flat::<C>(b)[i] != b[i] ==> {
            let (x, y) = (rules::folded::<C>(b[i]), rules::folded::<C>(flat::<C>(b)[i]));
            &&& x >= 0x80
            &&& y == 0x61 || y == 0x30 || y == 0x2e
        },
{
    let x = b[i];
    assert(x >= 0x80 ==> (x | 0x20) >= 0x80) by (bit_vector);
    assert(0x61u8 | 0x20 == 0x61 && 0x30u8 | 0x20 == 0x30 && 0x2eu8 | 0x20 == 0x2e)
        by (bit_vector);
}

// ---- pieces ----

/// Letters stay letters, and their words end alike.
proof fn lemma_flat_letter<C: PretokConfig>(b: Seq<u8>, p: int)
    requires
        alike::<C>(),
        util::boundary(b, p),
        p < b.len(),
    ensures
        letter_at::<C>(flat::<C>(b), p) == letter_at::<C>(b, p),
        util::ascii_letter(b[p]) ==> rules::run_end::<C>(b, p + 1, Class::Letter)
            == rules::run_end::<C>(b, p, Class::Letter),
        util::ascii_letter(flat::<C>(b)[p]) ==> rules::run_end::<C>(
            flat::<C>(b),
            p + 1,
            Class::Letter,
        ) == rules::run_end::<C>(b, p, Class::Letter),
        rules::run_end::<C>(flat::<C>(b), p, Class::Letter) == rules::run_end::<C>(
            b,
            p,
            Class::Letter,
        ),
        letter_at::<C>(b, p) && C::LETTER_MODE != LetterMode::CamelCase ==> rules::run_end::<C>(
            b,
            p,
            Class::Letter,
        ) == rules::run_end::<C>(b, util::after(b, p), Class::Letter),
        b[p] < 0x80 ==> flat::<C>(b)[p] == b[p],
        flat::<C>(b)[p] >= 0x80 ==> flat::<C>(b)[p] == b[p] && util::char_at(flat::<C>(b), p)
            == util::char_at(b, p),
{
    util::lemma_after(b, p);
    lemma_flat_char::<C>(b, p);
    lemma_flat_boundary::<C>(b, p);
    lemma_flat_run::<C>(b, p, Class::Letter);
}

/// Words that mind case end alike.
proof fn lemma_flat_camel<C: PretokConfig>(b: Seq<u8>, p: int)
    requires
        alike::<C>(),
        util::boundary(b, p),
        C::LETTER_MODE == LetterMode::CamelCase,
    ensures
        rules::upper_then_lower_end::<C>(flat::<C>(b), p) == rules::upper_then_lower_end::<C>(b, p),
        rules::run_end::<C>(flat::<C>(b), p, Class::Lower) == rules::run_end::<C>(
            b,
            p,
            Class::Lower,
        ),
        util::boundary(b, rules::upper_then_lower_end::<C>(b, p)),
        util::boundary(b, rules::run_end::<C>(b, p, Class::Lower)),
{
    lemma_flat_run::<C>(b, p, Class::Lower);
    lemma_flat_run::<C>(b, p, Class::Upper);
    rules::lemma_run_end::<C>(b, p, Class::Lower);
    rules::lemma_run_end::<C>(b, p, Class::Upper);
    let q = rules::run_end::<C>(b, p, Class::Upper);
    if q < b.len() {
        util::lemma_after(b, q);
        lemma_flat_char::<C>(b, q);
        lemma_flat_boundary::<C>(b, q);
        if b[q] >= 0x80 && !(class_at::<C>(b, q) is Defer) {
            lemma_stand_in::<C>(b, q, Class::Descent);
        } else {
            lemma_flat_run::<C>(b, util::after(b, q), Class::Lower);
            rules::lemma_run_end::<C>(b, util::after(b, q), Class::Lower);
        }
    }
}

/// Words end alike, with or without a contraction behind them.
proof fn lemma_flat_word<C: PretokConfig>(b: Seq<u8>, p: int, first: u8)
    requires
        alike::<C>(),
        util::boundary(b, p),
    ensures
        ({
            let v = flat::<C>(b);
            let e = rules::word_end::<C>(b, p, first);
            &&& rules::word_end::<C>(v, p, first) == e
            &&& rules::contraction_len::<C>(v, e) == rules::contraction_len::<C>(b, e)
            &&& 0 <= e
        }),
        forall|lower: bool|
            C::LETTER_MODE == LetterMode::CamelCase ==> #[trigger] rules::camel_end::<C>(
                flat::<C>(b),
                p,
                lower,
            ) == rules::camel_end::<C>(b, p, lower) && rules::contraction_len::<C>(
                flat::<C>(b),
                rules::camel_end::<C>(b, p, lower),
            ) == rules::contraction_len::<C>(b, rules::camel_end::<C>(b, p, lower)),
        ({
            let v = flat::<C>(b);
            let e = rules::run_end::<C>(b, p, Class::Letter);
            &&& rules::run_end::<C>(v, p, Class::Letter) == e
            &&& rules::contraction_len::<C>(v, e) == rules::contraction_len::<C>(b, e)
        }),
        ({
            let v = flat::<C>(b);
            let e = rules::run_end::<C>(b, p, Class::Lower);
            C::LETTER_MODE == LetterMode::CamelCase ==> {
                &&& rules::run_end::<C>(v, p, Class::Lower) == e
                &&& rules::contraction_len::<C>(v, e) == rules::contraction_len::<C>(b, e)
            }
        }),
{
    let v = flat::<C>(b);
    lemma_flat_run::<C>(b, p, Class::Letter);
    rules::lemma_run_end::<C>(b, p, Class::Letter);
    lemma_flat_contraction::<C>(b, rules::run_end::<C>(b, p, Class::Letter));
    if C::LETTER_MODE == LetterMode::CamelCase {
        lemma_flat_camel::<C>(b, p);
        lemma_flat_contraction::<C>(b, rules::upper_then_lower_end::<C>(b, p));
        lemma_flat_contraction::<C>(b, rules::run_end::<C>(b, p, Class::Lower));
    }
}

/// A piece that starts with an ASCII character ends alike.
proof fn lemma_flat_ascii<C: PretokConfig>(b: Seq<u8>, p: int)
    requires
        alike::<C>(),
        util::boundary(b, p),
        p < b.len(),
        b[p] < 0x80,
        !util::blank(b[p]),
    ensures
        rules::piece_end::<C>(flat::<C>(b), p) == rules::piece_end::<C>(b, p),
{
    util::lemma_after(b, p);
    lemma_flat_letter::<C>(b, p);
    lemma_flat_number::<C>(b, p + 1);
    lemma_flat_punct::<C>(b, p + 1);
    lemma_flat_run::<C>(b, p + 1, Class::Newline);
    lemma_flat_space_end::<C>(b, p);
    lemma_flat_contraction::<C>(b, p);
    lemma_flat_word::<C>(b, p + 1, b[p]);
    if p + 1 < b.len() {
        lemma_flat_letter::<C>(b, p + 1);
        lemma_flat_word::<C>(b, p + 1, b[p]);
        util::lemma_after(b, p + 1);
        lemma_flat_word::<C>(b, util::after(b, p + 1), b[p + 1]);
    }
}

/// A piece that starts with a blank ends alike.
proof fn lemma_flat_blank<C: PretokConfig>(b: Seq<u8>, p: int)
    requires
        alike::<C>(),
        util::boundary(b, p),
        p < b.len(),
        util::blank(b[p]),
    ensures
        rules::piece_end::<C>(flat::<C>(b), p) == rules::piece_end::<C>(b, p),
{
    let v = flat::<C>(b);
    util::lemma_after(b, p);
    lemma_flat_char::<C>(b, p);
    lemma_flat_space_end::<C>(b, p);
    if p + 1 < b.len() {
        let s = p + 1;
        util::lemma_after(b, s);
        lemma_flat_letter::<C>(b, s);
        lemma_flat_char::<C>(b, s);
        lemma_flat_boundary::<C>(b, s);
        lemma_flat_punct::<C>(b, s);
        lemma_flat_number::<C>(b, util::after(b, s));
        lemma_flat_word::<C>(b, s, b[s]);
        lemma_flat_word::<C>(b, util::after(b, s), b[s]);
        if b[s] >= 0x80 && class_at::<C>(b, s) is Number {
            lemma_flat_run::<C>(b, s, Class::Number);
            assert(rules::run_end::<C>(v, s + 1, Class::Number) == rules::run_end::<C>(
                v,
                util::after(b, s),
                Class::Number,
            ));
            assert(!rules::member::<C>(b, s, Class::Space));
            assert(rules::run_end::<C>(b, s, Class::Space) == s);
            assert(rules::run_end::<C>(b, p, Class::Space) == s);
        }
    }
}

/// A piece that starts with a non-ASCII character ends alike.
proof fn lemma_flat_unicode<C: PretokConfig>(b: Seq<u8>, p: int)
    requires
        alike::<C>(),
        util::boundary(b, p),
        p < b.len(),
        b[p] >= 0x80,
        valid_utf8(b),
        batch::reached::<C>(b, p),
    ensures
        rules::piece_end::<C>(flat::<C>(b), p) == rules::piece_end::<C>(b, p),
{
    let v = flat::<C>(b);
    let q = util::after(b, p);
    if class_at::<C>(b, p) is Punct && algebra::goes_along::<C>(b, p) {
        algebra::lemma_not_reached::<C>(b, p);
    }
    let k = class_at::<C>(b, p);
    util::lemma_after(b, p);
    lemma_flat_char::<C>(b, p);
    lemma_flat_boundary::<C>(b, p);
    lemma_flat_letter::<C>(b, p);
    lemma_flat_number::<C>(b, q);
    lemma_flat_punct::<C>(b, q);
    lemma_flat_run::<C>(b, q, Class::Letter);
    lemma_flat_space_end::<C>(b, p);
    lemma_flat_word::<C>(b, q, b[p]);
    if q < b.len() {
        lemma_flat_letter::<C>(b, q);
        util::lemma_after(b, q);
        lemma_flat_word::<C>(b, util::after(b, q), b[q]);
    }
    if k is Number {
        lemma_flat_run::<C>(b, p, Class::Number);
        assert(rules::run_end::<C>(v, p + 1, Class::Number) == rules::run_end::<C>(
            v,
            q,
            Class::Number,
        ));
    } else if k is Punct {
        lemma_flat_run::<C>(b, p, Class::Punct);
        assert(rules::run_end::<C>(v, p + 1, Class::Punct) == rules::run_end::<C>(
            v,
            q,
            Class::Punct,
        ));
    }
}

/// The pieces of a text are those of its flat form.
pub proof fn law_flat_pieces<C: PretokConfig>(b: Seq<u8>, p: int)
    requires
        valid_utf8(b),
        batch::reached::<C>(b, p),
        util::boundary(b, p),
        p < b.len(),
    ensures
        rules::piece_end::<C>(flat::<C>(b), p) == rules::piece_end::<C>(b, p),
        util::boundary(flat::<C>(b), p),
{
    lemma_flat_boundary::<C>(b, p);
    if !alike::<C>() {
        assert(flat::<C>(b) =~= b);
    } else if b[p] >= 0x80 {
        lemma_flat_unicode::<C>(b, p);
    } else if util::blank(b[p]) {
        lemma_flat_blank::<C>(b, p);
    } else {
        lemma_flat_ascii::<C>(b, p);
    }
}

/// The flat form of a text is a text.
pub proof fn lemma_flat_valid<C: PretokConfig>(b: Seq<u8>)
    requires
        valid_utf8(b),
    ensures
        valid_utf8(flat::<C>(b)),
{
    util::lemma_boundary_ends(b);
    lemma_flat_boundary::<C>(b, 0);
    assert(util::tail(flat::<C>(b), 0) =~= flat::<C>(b));
}

/// Where pieces of a text lead, those of its flat form lead.
proof fn lemma_flat_leads<C: PretokConfig>(b: Seq<u8>, a: int, p: int)
    requires
        valid_utf8(b),
        batch::reached::<C>(b, a),
        util::boundary(b, a),
        batch::leads::<C>(b, a, p),
    ensures
        batch::leads::<C>(flat::<C>(b), a, p),
    decreases p - a,
{
    if a != p {
        law_flat_pieces::<C>(b, a);
        rules::law_piece_end::<C>(b, a);
        batch::lemma_reached_next::<C>(b, a);
        lemma_flat_leads::<C>(b, rules::piece_end::<C>(b, a), p);
    }
}

/// A piece of the flat form starts where one of the text starts.
pub proof fn lemma_flat_reached<C: PretokConfig>(b: Seq<u8>, p: int)
    requires
        valid_utf8(b),
        batch::reached::<C>(b, p),
    ensures
        batch::reached::<C>(flat::<C>(b), p),
{
    util::lemma_boundary_ends(b);
    lemma_flat_leads::<C>(b, 0, p);
}

// ---- classifying ----

/// Can a word start with the non-ASCII character?
fn is_letter_char<C: PretokConfig>(ch: char) -> (r: bool)
    ensures
        r == rules::letter_char::<C>(ch),
{
    if C::LETTER_MODE == LetterMode::Plain {
        is_unicode_letter(ch)
    } else {
        ch.is_alphabetic() || is_unicode_mark(ch)
    }
}

/// Does a letter stand at `p`?
fn is_letter_at<C: PretokConfig>(bytes: &[u8], p: usize) -> (r: bool)
    requires
        util::boundary(bytes@, p as int),
        p < bytes@.len(),
    ensures
        r == letter_at::<C>(bytes@, p as int),
{
    if bytes[p] < 0x80 {
        is_ascii_letter(bytes[p])
    } else {
        let (ch, _) = decode_utf8(bytes, p);
        is_letter_char::<C>(ch)
    }
}

/// The class of a non-ASCII character.
pub fn uclass<C: PretokConfig>(ch: char) -> (k: UClass)
    ensures
        k == class_of::<C>(ch),
{
    if C::PUNCT_PREFIX_MODE == PunctPrefixMode::AsciiOnly || C::WS_EXCEPTION == WsException::Cjk
        || C::PUNCT_CLASS != PunctClass::NegatedAlnum || ch.is_whitespace() {
        return UClass::Defer;
    }
    let plain = C::LETTER_MODE != LetterMode::CamelCase && C::CONTRACTION_MODE
        != ContractionMode::Suffix;
    let letter = is_letter_char::<C>(ch) || (C::LETTER_MODE == LetterMode::CamelCase && (
    is_unicode_letter(ch) || ch.is_lowercase() || ch.is_uppercase()));
    let number = ch.is_numeric();
    if letter && !number && plain {
        UClass::Letter
    } else if !letter && number && C::DIGIT_MODE == DigitMode::Unlimited {
        UClass::Number
    } else if !letter && !number {
        UClass::Punct
    } else {
        UClass::Defer
    }
}

/// Does the character at `p` go along with a blank or ASCII punctuation?
fn is_along<C: PretokConfig>(bytes: &[u8], p: usize) -> (r: bool)
    requires
        alike::<C>(),
        p < bytes@.len(),
    ensures
        r == algebra::goes_along::<C>(bytes@, p as int),
{
    if p == 0 {
        return false;
    }
    let x: u8 = bytes[p - 1];
    let slash = C::PUNCT_TRAILING == PunctTrailing::NewlinesAndSlashes && x == 0x2f;
    let blank = x == 0x20 || x == 0x09;
    let newline = x == 0x0a || x == 0x0d;
    let mark = x < 0x80 && !is_ascii_letter(x) && !is_digit(x) && !blank && !newline;
    blank || (mark && !slash)
}

/// The start of the character that the byte at `i` belongs to.
fn lead_of(bytes: &[u8], i: usize) -> (j: usize)
    requires
        valid_utf8(bytes@),
        i < bytes@.len(),
    ensures
        j <= i,
        util::boundary(bytes@, j as int),
{
    let mut j: usize = i;
    while j > 0 && 0x80 <= bytes[j] && bytes[j] <= 0xbf
        invariant
            j <= i < bytes@.len(),
        decreases j,
    {
        j = j - 1;
    }
    proof {
        if j == 0 {
            util::lemma_boundary_ends(bytes@);
        } else {
            text::lemma_lead_is_boundary(bytes@, j as int);
        }
    }
    j
}

/// The flat form of `bytes[from..to]`: every non-ASCII character is classified
/// by all of its bytes, those outside the range too.
pub fn classify_uni<C: PretokConfig>(bytes: &[u8], from: usize, to: usize) -> (r: Vec<u8>)
    requires
        valid_utf8(bytes@),
        from < to <= bytes@.len(),
    ensures
        r@ == flat::<C>(bytes@).subrange(from as int, to as int),
{
    let len: usize = bytes.len();
    let ghost b = bytes@;
    let ghost v = flat::<C>(b);
    let mut out: Vec<u8> = Vec::new();
    let mut i: usize = lead_of(bytes, from);
    let mut done: usize = from;
    assert(v.subrange(from as int, from as int) =~= out@);
    while i < to
        invariant
            valid_utf8(b),
            b == bytes@,
            v == flat::<C>(b),
            len == b.len(),
            from < to <= len,
            util::boundary(b, i as int),
            from <= done <= to,
            i <= done || done == to,
            out@ == v.subrange(from as int, done as int),
            i >= to ==> done == to,
        decreases len - i,
    {
        proof {
            util::lemma_after(b, i as int);
            lemma_flat_char::<C>(b, i as int);
        }
        let mut end: usize = i + 1;
        let mut k = UClass::Defer;
        if bytes[i] >= 0x80 {
            let (ch, n) = decode_utf8(bytes, i);
            end = i + n;
            k = uclass::<C>(ch);
            if k == UClass::Punct && C::PUNCT_PREFIX_MODE != PunctPrefixMode::SpaceOnly && end < len
                && is_letter_at::<C>(bytes, end) && !is_along::<C>(bytes, i) {
                k = UClass::Defer;
            }
        }
        while done < end && done < to
            invariant
                b == bytes@,
                v == flat::<C>(b),
                len == b.len(),
                from <= done <= to <= len,
                i <= done,
                end <= len,
                end == util::after(b, i as int),
                forall|x: int|
                    i <= x < end ==> #[trigger] v[x] == stand_in(k, b[x]),
                out@ == v.subrange(from as int, done as int),
            decreases to - done,
        {
            let x: u8 = match k {
                UClass::Letter => 0x61,
                UClass::Number => 0x30,
                UClass::Punct => 0x2e,
                UClass::Defer => bytes[done],
            };
            out.push(x);
            assert(out@ =~= v.subrange(from as int, done + 1));
            done = done + 1;
        }
        i = end;
    }
    out
}

} // verus!
