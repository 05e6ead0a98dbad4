//! Where a piece ends, told from the bytes around the place.
//!
//! In ASCII text, the few bytes around a position mostly tell whether a piece
//! ends there. [`ends_here`] says how, and [`undecided`] says where they do not
//! tell.
use super::batch;
use super::config::{
    ContractionMode, DigitMode, LetterMode, PretokConfig, PunctPrefixMode, PunctTrailing,
    WsException, WsPattern,
};
use super::rules;
use super::rules::Class;
use super::util;
use crate::text;
use vstd::prelude::*;
use vstd::utf8::*;

verus! {

/// Space, tab, carriage return or line feed.
pub open spec fn white(x: u8) -> bool {
    util::blank(x) || util::newline(x)
}

/// A byte that the algebra decides by wherever it stands: an ASCII letter,
/// digit, whitespace or punctuation character, but no apostrophe.
pub open spec fn plain_byte<C: PretokConfig>(x: u8) -> bool {
    util::ascii_letter(x) || util::ascii_digit(x) || white(x) || (rules::punct_byte::<C>(x) && x
        != 0x27)
}

/// A whitespace run stays whole in front of a digit.
pub open spec fn whole_before_digit<C: PretokConfig>() -> bool {
    ||| C::WS_EXCEPTION == WsException::Digits && C::WS_PATTERN == WsPattern::Gpt2
    ||| C::WS_EXCEPTION == WsException::Cjk && C::WS_PATTERN == WsPattern::Cl100k
}

/// The start of the digits that stand before `q`.
pub open spec fn digit_start(b: Seq<u8>, q: int) -> int
    decreases q,
{
    if q <= 0 || !util::ascii_digit(b[q - 1]) {
        q
    } else {
        digit_start(b, q - 1)
    }
}

/// The whitespace at `q` is the last of its run, and is left to what follows.
pub open spec fn left_to_next<C: PretokConfig>(b: Seq<u8>, q: int) -> bool {
    q + 1 < b.len() && !white(b[q + 1]) && !(whole_before_digit::<C>() && util::ascii_digit(
        b[q + 1],
    ))
}

/// A piece that has come up to `q` ends there, contractions aside.
pub open spec fn ends_plain<C: PretokConfig>(b: Seq<u8>, q: int) -> bool {
    let a = b[q - 1];
    let c = b[q];
    if q <= 0 {
        false
    } else if util::ascii_letter(a) {
        !util::ascii_letter(c) || (C::LETTER_MODE == LetterMode::CamelCase && util::ascii_lower(a)
            && util::ascii_upper(c))
    } else if util::ascii_digit(a) {
        !util::ascii_digit(c) || match C::DIGIT_MODE {
            DigitMode::Unlimited => false,
            DigitMode::Single => true,
            DigitMode::Chunked3 => (q - digit_start(b, q)) % 3 == 0,
        }
    } else if white(a) {
        if white(c) {
            !(C::WS_PATTERN == WsPattern::Cl100k && util::newline(a) && util::newline(c))
                && left_to_next::<C>(b, q)
        } else {
            util::newline(a) || (util::ascii_digit(c) && !C::SPACE_PREFIXES_DIGITS)
        }
    } else {
        &&& rules::punct_byte::<C>(a)
        &&& !rules::punct_byte::<C>(c)
        &&& !(util::newline(c) && C::PUNCT_TRAILING != PunctTrailing::Absent)
        &&& !(util::ascii_letter(c) && (C::PUNCT_PREFIX_MODE != PunctPrefixMode::SpaceOnly || a
            == 0x27) && starts_afresh::<C>(b, q - 1))
    }
}

/// The bytes around an apostrophe tell what it starts: contractions are no part
/// of the words before them.
pub open spec fn apostrophes_told<C: PretokConfig>() -> bool {
    C::LETTER_MODE != LetterMode::CamelCase && C::CONTRACTION_MODE != ContractionMode::Suffix
}

/// The algebra decides by the character at `x`.
pub open spec fn plain_at<C: PretokConfig>(b: Seq<u8>, x: int) -> bool {
    plain_byte::<C>(b[x]) || (b[x] == 0x27 && (goes_along::<C>(b, x) || (apostrophes_told::<C>()
        && starts_afresh::<C>(b, x))))
}

/// The length of the contraction that is a piece from `x` on; 0 where there is
/// none.
pub open spec fn contraction<C: PretokConfig>(b: Seq<u8>, x: int) -> int {
    if apostrophes_told::<C>() && 0 <= x < b.len() && starts_afresh::<C>(b, x) {
        rules::contraction_len::<C>(b, x)
    } else {
        0
    }
}

/// The position `q` lies inside a contraction.
pub open spec fn in_contraction<C: PretokConfig>(b: Seq<u8>, q: int) -> bool {
    contraction::<C>(b, q - 1) > 0 || contraction::<C>(b, q - 2) == 3
}

/// A contraction ends at `q`.
pub open spec fn behind_contraction<C: PretokConfig>(b: Seq<u8>, q: int) -> bool {
    contraction::<C>(b, q - 2) == 2 || contraction::<C>(b, q - 3) == 3
}

/// A piece that has come up to `q` ends there.
pub open spec fn ends_here<C: PretokConfig>(b: Seq<u8>, q: int) -> bool {
    behind_contraction::<C>(b, q) || (ends_plain::<C>(b, q) && !in_contraction::<C>(b, q))
}

/// The punctuation character at `x` starts a piece: it stands at the start of
/// the text or behind a letter, a digit or a newline.
pub open spec fn starts_afresh<C: PretokConfig>(b: Seq<u8>, x: int) -> bool {
    x == 0 || util::ascii_letter(b[x - 1]) || util::ascii_digit(b[x - 1]) || (util::newline(
        b[x - 1],
    ) && !(C::PUNCT_TRAILING == PunctTrailing::NewlinesAndSlashes && b[x] == 0x2f))
}

/// The punctuation character at `x` starts no piece: it stands behind a blank
/// or more punctuation.
pub open spec fn goes_along<C: PretokConfig>(b: Seq<u8>, x: int) -> bool {
    0 < x && (util::blank(b[x - 1]) || (rules::punct_byte::<C>(b[x - 1]) && !(C::PUNCT_TRAILING
        == PunctTrailing::NewlinesAndSlashes && b[x - 1] == 0x2f)))
}

/// The bytes around `q` do not tell whether a piece ends there.
pub open spec fn undecided<C: PretokConfig>(b: Seq<u8>, q: int) -> bool {
    let a = b[q - 1];
    let c = b[q];
    0 < q && {
        // blanks and newlines in one run
        ||| C::WS_PATTERN == WsPattern::Cl100k && ((util::blank(a) && util::newline(c)) || (
        util::newline(a) && util::blank(c)))
        // a slash that may trail punctuation
        ||| C::PUNCT_TRAILING == PunctTrailing::NewlinesAndSlashes && util::newline(a) && c == 0x2f
        // newlines that may trail punctuation
        ||| C::PUNCT_TRAILING != PunctTrailing::Absent && C::WS_PATTERN == WsPattern::Gpt2
            && util::newline(a)
        // whitespace that a non-ASCII character may go on
        ||| white(a) && white(c) && !(C::WS_PATTERN == WsPattern::Cl100k && util::newline(c)) && q
            + 1 < b.len() && b[q + 1] >= 0x80
        // punctuation that may prefix a word
        ||| rules::punct_byte::<C>(a) && util::ascii_letter(c) && C::PUNCT_PREFIX_MODE
            != PunctPrefixMode::SpaceOnly && !starts_afresh::<C>(b, q - 1) && !goes_along::<C>(
            b,
            q - 1,
        )
        // a word of which only a prefix minds its case
        ||| C::LETTER_MODE == LetterMode::CamelCase && C::PUNCT_PREFIX_MODE
            == PunctPrefixMode::AsciiOnly && util::ascii_lower(a) && util::ascii_upper(c)
        // a space that may prefix a number or stay with its run
        ||| C::SPACE_PREFIXES_DIGITS && C::WS_EXCEPTION != WsException::Absent && util::blank(a)
            && util::ascii_digit(c)
        // digits that are counted from an unknown start
        ||| C::DIGIT_MODE == DigitMode::Chunked3 && util::ascii_digit(a) && util::ascii_digit(c) && (
        C::SPACE_PREFIXES_DIGITS || (digit_start(b, q) > 0 && b[digit_start(b, q) - 1] >= 0x80))
    }
}

/// The bytes around `j` tell whether a piece ends there.
pub open spec fn sure<C: PretokConfig>(b: Seq<u8>, j: int) -> bool {
    0 <= j < b.len() && plain_at::<C>(b, j) && !undecided::<C>(b, j)
}

// ---- runs of ASCII characters ----

/// A run from `s` on goes through members of its class, and ends before the
/// first other character.
proof fn lemma_run<C: PretokConfig>(b: Seq<u8>, s: int, k: Class, q: int)
    requires
        0 <= s <= q < b.len(),
        util::boundary(b, s),
        forall|j: int| s <= j <= q ==> #[trigger] b[j] < 0x80,
    ensures
        (forall|j: int| s <= j < q ==> rules::class_byte::<C>(k, #[trigger] b[j]))
            ==> rules::run_end::<C>(b, s, k) >= q && (rules::class_byte::<C>(k, b[q])
            <==> rules::run_end::<C>(b, s, k) > q),
        forall|j: int|
            s <= j <= q && !rules::class_byte::<C>(k, #[trigger] b[j]) ==> rules::run_end::<C>(
                b,
                s,
                k,
            ) <= j,
        rules::run_end::<C>(b, s, k) >= s,
    decreases q - s,
{
    rules::lemma_here(b, s);
    assert(b[s] < 0x80);
    if s < q && rules::class_byte::<C>(k, b[s]) {
        lemma_run::<C>(b, s + 1, k, q);
    } else if s == q && rules::class_byte::<C>(k, b[s]) {
        rules::lemma_run_end::<C>(b, s + 1, k);
    }
}

/// From `p` up to `q`, and at `q`, the bytes around a position tell.
pub open spec fn all_sure<C: PretokConfig>(b: Seq<u8>, p: int, q: int) -> bool {
    forall|j: int| p <= j <= q ==> #[trigger] sure::<C>(b, j)
}

/// Sure positions hold ASCII characters, and are boundaries if the first is.
proof fn lemma_ascii<C: PretokConfig>(b: Seq<u8>, p: int, q: int)
    requires
        util::boundary(b, p),
        0 <= p <= q < b.len(),
        all_sure::<C>(b, p, q),
    ensures
        forall|j: int| p <= j <= q ==> #[trigger] b[j] < 0x80,
        forall|j: int| p <= j <= q ==> #[trigger] util::boundary(b, j),
        util::boundary(b, q + 1),
    decreases q - p,
{
    assert forall|j: int| p <= j <= q implies #[trigger] b[j] < 0x80 by {
        assert(sure::<C>(b, j));
    }
    rules::lemma_here(b, p);
    if p < q {
        lemma_ascii::<C>(b, p + 1, q);
    }
}

/// A piece that goes on with a word whose first letter stands at `s`.
proof fn lemma_word<C: PretokConfig>(b: Seq<u8>, s: int, q: int)
    requires
        util::boundary(b, s),
        0 <= s < q < b.len(),
        all_sure::<C>(b, s, q),
        util::ascii_letter(b[s]),
    ensures
        ({
            let e = rules::word_end::<C>(b, s + 1, b[s]);
            &&& e > q ==> !ends_plain::<C>(b, q)
            &&& e == q ==> ends_plain::<C>(b, q)
            &&& e <= q && !apostrophes_told::<C>() ==> b[e] != 0x27
            &&& s < e
        }),
{
    lemma_ascii::<C>(b, s, q);
    let e = rules::word_end::<C>(b, s + 1, b[s]);
    assert(util::boundary(b, s + 1));
    if C::LETTER_MODE != LetterMode::CamelCase {
        lemma_run::<C>(b, s + 1, Class::Letter, q);
        if e >= q {
            assert forall|j: int| s <= j < q implies util::ascii_letter(#[trigger] b[j]) by {
                if j > s && !util::ascii_letter(b[j]) {
                    assert(!rules::class_byte::<C>(Class::Letter, b[j]));
                }
            }
            assert(util::ascii_letter(b[q - 1]));
        }
    } else if util::ascii_lower(b[s]) {
        lemma_run::<C>(b, s + 1, Class::Lower, q);
        if e >= q {
            assert forall|j: int| s <= j < q implies util::ascii_lower(#[trigger] b[j]) by {
                if j > s && !util::ascii_lower(b[j]) {
                    assert(!rules::class_byte::<C>(Class::Lower, b[j]));
                }
            }
            assert(util::ascii_lower(b[q - 1]));
        }
    } else {
        let u = rules::run_end::<C>(b, s + 1, Class::Upper);
        lemma_run::<C>(b, s + 1, Class::Upper, q);
        if u >= q {
            assert forall|j: int| s <= j < q implies util::ascii_upper(#[trigger] b[j]) by {
                if j > s && !util::ascii_upper(b[j]) {
                    assert(!rules::class_byte::<C>(Class::Upper, b[j]));
                }
            }
            assert(util::ascii_upper(b[q - 1]));
            if u == q {
                rules::lemma_here(b, q);
                rules::lemma_run_end::<C>(b, q + 1, Class::Lower);
            } else {
                rules::lemma_run_end::<C>(b, s + 1, Class::Upper);
                if u < b.len() && rules::member::<C>(b, u, Class::Descent) {
                    rules::lemma_here(b, u);
                    rules::lemma_run_end::<C>(b, util::after(b, u), Class::Lower);
                }
            }
        } else {
            rules::lemma_here(b, u);
            assert(b[u] < 0x80);
            if rules::member::<C>(b, u, Class::Descent) {
                assert(util::boundary(b, u + 1));
                if u + 1 <= q {
                    lemma_run::<C>(b, u + 1, Class::Lower, q);
                    if e >= q {
                        assert forall|j: int| u <= j < q implies util::ascii_lower(
                            #[trigger] b[j],
                        ) by {
                            if j > u && !util::ascii_lower(b[j]) {
                                assert(!rules::class_byte::<C>(Class::Lower, b[j]));
                            }
                        }
                        assert(util::ascii_lower(b[q - 1]));
                    }
                }
            }
        }
    }
    if e <= q {
        assert(sure::<C>(b, e));
        assert(util::ascii_letter(b[e - 1]));
    }
}

/// A word behind a punctuation character.
proof fn lemma_prefixed_word<C: PretokConfig>(b: Seq<u8>, s: int, q: int)
    requires
        util::boundary(b, s),
        0 <= s < q < b.len(),
        all_sure::<C>(b, s, q),
        util::ascii_letter(b[s]),
    ensures
        ({
            let e = rules::prefixed_word_end::<C>(b, s);
            &&& e > q ==> !ends_plain::<C>(b, q)
            &&& e == q ==> ends_plain::<C>(b, q)
            &&& e <= q && !apostrophes_told::<C>() ==> b[e] != 0x27
            &&& s < e
        }),
{
    lemma_ascii::<C>(b, s, q);
    if C::PUNCT_PREFIX_MODE == PunctPrefixMode::AsciiOnly {
        let e = rules::prefixed_word_end::<C>(b, s);
        assert(util::boundary(b, s + 1));
        lemma_run::<C>(b, s + 1, Class::AsciiLetter, q);
        assert(sure::<C>(b, q));
        if e >= q {
            assert forall|j: int| s <= j < q implies util::ascii_letter(#[trigger] b[j]) by {
                if j > s && !util::ascii_letter(b[j]) {
                    assert(!rules::class_byte::<C>(Class::AsciiLetter, b[j]));
                }
            }
            assert(util::ascii_letter(b[q - 1]));
        }
        if e <= q {
            assert(sure::<C>(b, e));
            assert(util::ascii_letter(b[e - 1]));
        }
    } else {
        lemma_word::<C>(b, s, q);
    }
}

/// A number whose first digit stands at `s`, where any number of digits make
/// one piece, or one digit does.
proof fn lemma_number<C: PretokConfig>(b: Seq<u8>, s: int, q: int)
    requires
        util::boundary(b, s),
        0 <= s < q < b.len(),
        all_sure::<C>(b, s, q),
        util::ascii_digit(b[s]),
        C::DIGIT_MODE != DigitMode::Chunked3,
    ensures
        ({
            let e = rules::number_end::<C>(b, s + 1);
            &&& e > q ==> !ends_plain::<C>(b, q)
            &&& e == q ==> ends_plain::<C>(b, q)
            &&& s < e
        }),
{
    lemma_ascii::<C>(b, s, q);
    assert(util::boundary(b, s + 1));
    if C::DIGIT_MODE == DigitMode::Unlimited {
        let e = rules::number_end::<C>(b, s + 1);
        lemma_run::<C>(b, s + 1, Class::Number, q);
        if e >= q {
            assert forall|j: int| s <= j < q implies util::ascii_digit(#[trigger] b[j]) by {
                if j > s && !util::ascii_digit(b[j]) {
                    assert(!rules::class_byte::<C>(Class::Number, b[j]));
                }
            }
            assert(util::ascii_digit(b[q - 1]));
        }
    }
}

/// A punctuation run that goes on at `s`, behind a punctuation character or a
/// blank.
proof fn lemma_punct<C: PretokConfig>(b: Seq<u8>, s: int, q: int)
    requires
        util::boundary(b, s),
        0 < s <= q < b.len(),
        all_sure::<C>(b, s - 1, q),
        s == q ==> rules::punct_byte::<C>(b[q - 1]),
        s < q ==> rules::punct_byte::<C>(b[s]) || rules::punct_byte::<C>(b[s - 1]),
        util::ascii_letter(b[q]) && rules::punct_byte::<C>(b[q - 1]) ==> (C::PUNCT_PREFIX_MODE
            == PunctPrefixMode::SpaceOnly && b[q - 1] != 0x27) || !starts_afresh::<C>(b, q - 1),
    ensures
        ({
            let e = rules::punct_end::<C>(b, s);
            &&& e > q ==> !ends_plain::<C>(b, q)
            &&& e == q ==> ends_plain::<C>(b, q)
            &&& s <= e
        }),
{
    lemma_ascii::<C>(b, s, q);
    let r = rules::run_end::<C>(b, s, Class::Punct);
    let e = rules::punct_end::<C>(b, s);
    lemma_run::<C>(b, s, Class::Punct, q);
    rules::lemma_run_end::<C>(b, s, Class::Punct);
    rules::lemma_run_end::<C>(b, r, Class::Trailing);
    assert(sure::<C>(b, q));
    if r >= q {
        assert forall|j: int| s <= j < q implies rules::punct_byte::<C>(#[trigger] b[j]) by {
            if !rules::punct_byte::<C>(b[j]) {
                assert(!rules::class_byte::<C>(Class::Punct, b[j]));
            }
        }
        assert(rules::punct_byte::<C>(b[q - 1]));
        if r == q {
            lemma_run::<C>(b, q, Class::Trailing, q);
        }
    } else {
        lemma_run::<C>(b, r, Class::Trailing, q);
        assert forall|j: int| s <= j < r implies rules::class_byte::<C>(
            Class::Punct,
            #[trigger] b[j],
        ) by {}
        lemma_run::<C>(b, s, Class::Punct, r);
        assert(!rules::class_byte::<C>(Class::Punct, b[r]));
        if e >= q {
            lemma_trailing::<C>(b, r, q);
        }
    }
}

/// What trails punctuation up to a sure position are newlines.
proof fn lemma_trailing<C: PretokConfig>(b: Seq<u8>, r: int, q: int)
    requires
        0 < r < q < b.len(),
        all_sure::<C>(b, r, q),
        !rules::punct_byte::<C>(b[r]),
        forall|j: int| r <= j < q ==> rules::class_byte::<C>(Class::Trailing, #[trigger] b[j]),
    ensures
        util::newline(b[q - 1]),
        C::PUNCT_TRAILING != PunctTrailing::Absent,
    decreases q - r,
{
    assert(rules::class_byte::<C>(Class::Trailing, b[q - 1]));
    assert(sure::<C>(b, q - 1));
    if q - 1 > r {
        lemma_trailing::<C>(b, r, q - 1);
    } else {
        assert(rules::class_byte::<C>(Class::Trailing, b[r]));
    }
}

// ---- whitespace ----

/// The last character before `e` starts at `x` or behind it, where a character
/// starts at `x`.
proof fn lemma_last_start_from(b: Seq<u8>, p: int, x: int, e: int)
    requires
        p <= x < e,
        !is_continuation_byte(b[x]),
    ensures
        rules::last_start(b, p, e) >= x,
    decreases e - x,
{
    if e - 1 > x {
        lemma_last_start_from(b, p, x, e - 1);
    }
}

/// Behind a newline that stands in `p..e`, or at it, ends the last one.
proof fn lemma_newline_found(b: Seq<u8>, p: int, e: int)
    requires
        0 <= p <= e <= b.len(),
    ensures
        rules::last_newline_end(b, p, e) > 0 ==> p < rules::last_newline_end(b, p, e) <= e
            && util::newline(b[rules::last_newline_end(b, p, e) - 1]),
        forall|j: int|
            p <= j < e && util::newline(#[trigger] b[j]) ==> rules::last_newline_end(b, p, e) > j,
    decreases e - p,
{
    if e > p && !util::newline(b[e - 1]) {
        lemma_newline_found(b, p, e - 1);
    }
}

/// Where blanks and newlines do not mix up to a sure position, a run that
/// starts with a blank has blanks up to there.
proof fn lemma_blanks<C: PretokConfig>(b: Seq<u8>, p: int, q: int)
    requires
        0 <= p <= q < b.len(),
        C::WS_PATTERN == WsPattern::Cl100k,
        util::blank(b[p]),
        all_sure::<C>(b, p, q),
        forall|j: int| p <= j <= q ==> white(#[trigger] b[j]),
    ensures
        util::blank(b[q]),
    decreases q - p,
{
    if p < q {
        lemma_blanks::<C>(b, p, q - 1);
        assert(sure::<C>(b, q));
        assert(white(b[q]));
    }
}

/// A whitespace run that starts at `p`.
proof fn lemma_space<C: PretokConfig>(b: Seq<u8>, p: int, q: int)
    requires
        util::boundary(b, p),
        0 <= p < q < b.len(),
        all_sure::<C>(b, p, q),
        white(b[p]),
        C::WS_PATTERN == WsPattern::Cl100k ==> util::blank(b[p]),
        util::blank(b[p]) ==> white(b[p + 1]) || (util::ascii_digit(b[p + 1])
            && !C::SPACE_PREFIXES_DIGITS),
        q <= rules::space_end::<C>(b, p),
    ensures
        rules::space_end::<C>(b, p) == q <==> ends_plain::<C>(b, q),
{
    lemma_ascii::<C>(b, p, q);
    let e = rules::run_end::<C>(b, p, Class::Space);
    let n = rules::last_newline_end(b, p, e);
    let l = rules::last_start(b, p, e);
    lemma_run::<C>(b, p, Class::Space, q);
    rules::lemma_run_end::<C>(b, p, Class::Space);
    lemma_newline_found(b, p, e);
    assert(sure::<C>(b, q));
    rules::lemma_last_start_boundary(b, p, p, e);
    assert(q <= e);
    assert forall|j: int| p <= j < q implies white(#[trigger] b[j]) by {
        if !white(b[j]) {
            assert(!rules::class_byte::<C>(Class::Space, b[j]));
        }
    }
    assert(white(b[q - 1]));
    if q < e {
        assert(white(b[q])) by {
            if !white(b[q]) {
                assert(!rules::class_byte::<C>(Class::Space, b[q]));
            }
        }
        assert forall|j: int| p <= j <= q implies white(#[trigger] b[j]) by {}
        if C::WS_PATTERN == WsPattern::Cl100k {
            lemma_blanks::<C>(b, p, q);
            lemma_blanks::<C>(b, p, q - 1);
        }
        lemma_next_white::<C>(b, p, q, e);
    } else {
        if C::WS_PATTERN == WsPattern::Cl100k {
            lemma_blanks::<C>(b, p, q - 1);
        }
        if q - 1 > p {
            lemma_last_start_from(b, p, q - 1, e);
        }
    }
}

/// The whitespace at `q`, before the end `e` of its run, is the last of the
/// run or is followed by more.
proof fn lemma_next_white<C: PretokConfig>(b: Seq<u8>, p: int, q: int, e: int)
    requires
        util::boundary(b, p),
        0 <= p < q < e <= b.len(),
        all_sure::<C>(b, p, q),
        e == rules::run_end::<C>(b, p, Class::Space),
        forall|j: int| p <= j <= q ==> white(#[trigger] b[j]),
        C::WS_PATTERN == WsPattern::Cl100k ==> util::blank(b[q]),
    ensures
        q + 1 < e ==> white(b[q + 1]) && rules::last_start(b, p, e) > q,
        q + 1 == e ==> rules::last_start(b, p, e) == q && (e < b.len() ==> b[e] < 0x80 && !white(
            b[e],
        )),
{
    lemma_ascii::<C>(b, p, q);
    assert(sure::<C>(b, q));
    assert(white(b[q - 1]) && white(b[q]));
    if q + 1 < b.len() {
        assert(b[q + 1] < 0x80);
        assert forall|j: int| p <= j <= q + 1 implies #[trigger] b[j] < 0x80 by {}
        lemma_run::<C>(b, p, Class::Space, q + 1);
    }
    if q + 1 < e {
        lemma_last_start_from(b, p, q + 1, e);
    } else {
        assert(util::boundary(b, q));
        rules::lemma_here(b, q);
        rules::lemma_last_start(b, p, q, e);
    }
}

// ---- numbers of three digits ----

/// A run does not go past a position where its class is not met.
proof fn lemma_run_stops<C: PretokConfig>(b: Seq<u8>, s: int, k: Class, x: int)
    requires
        util::boundary(b, s),
        util::boundary(b, x),
        s <= x < b.len(),
        !rules::member::<C>(b, x, k),
    ensures
        rules::run_end::<C>(b, s, k) <= x,
    decreases x - s,
{
    if s < x && rules::member::<C>(b, s, k) {
        lemma_after_upto(b, s, x);
        rules::lemma_here(b, s);
        lemma_run_stops::<C>(b, util::after(b, s), k, x);
    }
}

/// A character that starts before another one ends before it or at it.
proof fn lemma_after_upto(b: Seq<u8>, s: int, x: int)
    requires
        util::boundary(b, s),
        s < x < b.len(),
        util::boundary(b, x),
    ensures
        util::after(b, s) <= x,
{
    util::lemma_after(b, s);
    util::lemma_after(b, x);
    if x < util::after(b, s) {
        assert(is_continuation_byte(b[x]));
    }
}

proof fn lemma_upto_stops<C: PretokConfig>(b: Seq<u8>, s: int, k: Class, n: nat, x: int)
    requires
        util::boundary(b, s),
        util::boundary(b, x),
        s <= x < b.len(),
        b[x] < 0x80,
        !rules::class_byte::<C>(k, b[x]),
    ensures
        rules::run_end_upto::<C>(b, s, k, n) <= x,
    decreases n,
{
    if n > 0 && s < x && rules::member::<C>(b, s, k) {
        lemma_after_upto(b, s, x);
        rules::lemma_here(b, s);
        lemma_upto_stops::<C>(b, util::after(b, s), k, (n - 1) as nat, x);
    }
}

/// A digit at `x` stands at the start of its digits, and what stands before
/// it is an ASCII character.
spec fn starts_digits(b: Seq<u8>, x: int) -> bool {
    &&& 0 <= x < b.len()
    &&& util::ascii_digit(b[x])
    &&& x > 0 ==> b[x - 1] < 0x80 && !util::ascii_digit(b[x - 1])
}

/// There is a digit at `x`.
spec fn stops_at(b: Seq<u8>, x: int) -> bool {
    &&& valid_utf8(b)
    &&& util::boundary(b, x)
    &&& 0 <= x < b.len()
    &&& util::ascii_digit(b[x])
}

/// The character at `p` starts a number.
spec fn number_at<C: PretokConfig>(b: Seq<u8>, p: int) -> bool {
    &&& 0 <= p < b.len()
    &&& rules::member::<C>(b, p, Class::Number)
    &&& b[p] >= 0x80 ==> !rules::letter_char::<C>(util::char_at(b, p))
}

/// The piece at `p` is a number, with a space before it where the config has
/// that.
spec fn number_piece<C: PretokConfig>(b: Seq<u8>, p: int) -> bool {
    ||| number_at::<C>(b, p)
    ||| C::SPACE_PREFIXES_DIGITS && util::blank(b[p]) && number_at::<C>(b, p + 1)
}

/// Runs of all classes but that of numbers stop at a digit.
proof fn lemma_runs_stop<C: PretokConfig>(b: Seq<u8>, x: int)
    requires
        stops_at(b, x),
    ensures
        forall|s: int, k: Class|
            s <= x && util::boundary(b, s) && k != Class::Number ==> #[trigger] rules::run_end::<C>(
                b,
                s,
                k,
            ) <= x,
        starts_digits(b, x) ==> forall|s: int|
            s < x && util::boundary(b, s) ==> #[trigger] rules::number_end::<C>(b, s) <= x,
{
    assert forall|s: int, k: Class|
        s <= x && util::boundary(b, s) && k != Class::Number implies #[trigger] rules::run_end::<
        C,
    >(b, s, k) <= x by {
        lemma_run_stops::<C>(b, s, k, x);
    }
    assert forall|s: int|
        starts_digits(b, x) && s < x && util::boundary(b, s) implies #[trigger] rules::number_end::<
        C,
    >(b, s) <= x by {
        text::lemma_lead_is_boundary(b, x - 1);
        lemma_run_stops::<C>(b, s, Class::Number, x - 1);
        lemma_upto_stops::<C>(b, s, Class::Number, 2, x - 1);
    }
}

/// A contraction does not go past a digit.
proof fn lemma_contraction_stops<C: PretokConfig>(b: Seq<u8>, e: int, x: int)
    requires
        0 <= e <= x < b.len(),
        util::ascii_digit(b[x]),
    ensures
        e + rules::contraction_len::<C>(b, e) <= x,
        rules::with_suffix::<C>(b, e) <= x,
        rules::with_contraction::<C>(b, e) <= x,
{
    assert(0x30 <= b[x] <= 0x39);
    let y = b[x];
    assert(0x30 <= y <= 0x39 ==> (y | 0x20) == y) by (bit_vector);
}

/// Words stop at digits.
proof fn lemma_words_stop<C: PretokConfig>(b: Seq<u8>, p: int, first: u8, x: int)
    requires
        stops_at(b, x),
        util::boundary(b, p),
        p <= x,
    ensures
        rules::upper_then_lower_end::<C>(b, p) <= x,
        rules::word_end::<C>(b, p, first) <= x,
        rules::camel_end::<C>(b, p, true) <= x,
        rules::camel_end::<C>(b, p, false) <= x,
        p >= 0,
        rules::upper_then_lower_end::<C>(b, p) >= 0,
        rules::word_end::<C>(b, p, first) >= 0,
        rules::camel_end::<C>(b, p, true) >= 0,
        rules::camel_end::<C>(b, p, false) >= 0,
{
    lemma_runs_stop::<C>(b, x);
    let q = rules::run_end::<C>(b, p, Class::Upper);
    rules::lemma_run_end::<C>(b, p, Class::Upper);
    rules::lemma_run_end::<C>(b, p, Class::Lower);
    rules::lemma_run_end::<C>(b, p, Class::Letter);
    if q < x {
        lemma_after_upto(b, q, x);
        rules::lemma_here(b, q);
        rules::lemma_run_end::<C>(b, util::after(b, q), Class::Lower);
    }
}

/// Punctuation and whitespace stop at digits.
proof fn lemma_others_stop<C: PretokConfig>(b: Seq<u8>, p: int, x: int)
    requires
        stops_at(b, x),
        util::boundary(b, p),
        p <= x,
    ensures
        rules::punct_end::<C>(b, p) <= x,
        rules::space_end::<C>(b, p) <= x,
{
    lemma_runs_stop::<C>(b, x);
    let r = rules::run_end::<C>(b, p, Class::Punct);
    rules::lemma_run_end::<C>(b, p, Class::Punct);
    assert(rules::run_end::<C>(b, r, Class::Trailing) <= x);
    let e = rules::run_end::<C>(b, p, Class::Space);
    rules::lemma_run_end::<C>(b, p, Class::Space);
    lemma_newline_found(b, p, e);
    rules::lemma_last_start_boundary(b, p, p, e);
}

/// A word behind a prefix stops at digits.
proof fn lemma_prefixed_stop<C: PretokConfig>(b: Seq<u8>, p: int, x: int)
    requires
        stops_at(b, x),
        util::boundary(b, p),
        0 <= p < x,
    ensures
        util::ascii_letter(b[p]) ==> 0 <= rules::prefixed_word_end::<C>(b, p) <= x,
        0 <= rules::run_end::<C>(b, p, Class::Letter) <= x,
        0 <= rules::run_end::<C>(b, p, Class::Lower) <= x,
        b[p] >= 0x80 ==> rules::prefixed_unicode_word_end::<C>(b, p) <= x,
        util::after(b, p) <= x,
        util::boundary(b, util::after(b, p)),
        b[p] < 0x80 ==> util::after(b, p) == p + 1,
{
    lemma_runs_stop::<C>(b, x);
    lemma_after_upto(b, p, x);
    rules::lemma_here(b, p);
    let q = util::after(b, p);
    lemma_words_stop::<C>(b, q, b[p], x);
    rules::lemma_run_end::<C>(b, q, Class::AsciiLetter);
    rules::lemma_run_end::<C>(b, p, Class::Letter);
    rules::lemma_run_end::<C>(b, p, Class::Lower);
    lemma_contraction_stops::<C>(b, rules::run_end::<C>(b, p, Class::Letter), x);
    lemma_contraction_stops::<C>(b, rules::camel_end::<C>(b, q, true), x);
    lemma_contraction_stops::<C>(b, rules::camel_end::<C>(b, q, false), x);
}

/// A piece that starts with an apostrophe or ASCII punctuation stops at digits.
proof fn lemma_marks_stop<C: PretokConfig>(b: Seq<u8>, a: int, x: int)
    requires
        stops_at(b, x),
        util::boundary(b, a),
        0 <= a < x,
        b[a] < 0x80,
    ensures
        b[a] == 0x27 ==> rules::apostrophe_piece_end::<C>(b, a) <= x,
        rules::ascii_punct_piece_end::<C>(b, a) <= x,
        util::blank(b[a]) && !number_piece::<C>(b, a) ==> rules::blank_piece_end::<C>(b, a) <= x,
{
    rules::lemma_here(b, a);
    lemma_others_stop::<C>(b, a + 1, x);
    lemma_others_stop::<C>(b, a, x);
    lemma_contraction_stops::<C>(b, a, x);
    if a + 1 < x {
        lemma_prefixed_stop::<C>(b, a + 1, x);
        if util::ascii_letter(b[a + 1]) {
            lemma_contraction_stops::<C>(b, rules::prefixed_word_end::<C>(b, a + 1), x);
            lemma_words_stop::<C>(b, a + 2, b[a + 1], x);
            lemma_contraction_stops::<C>(b, rules::word_end::<C>(b, a + 2, b[a + 1]), x);
        }
        lemma_contraction_stops::<C>(b, rules::run_end::<C>(b, a + 1, Class::Letter), x);
    }
}

/// A piece that starts with a non-ASCII character stops at digits.
proof fn lemma_unicode_stop<C: PretokConfig>(b: Seq<u8>, a: int, x: int)
    requires
        stops_at(b, x),
        util::boundary(b, a),
        0 <= a < x,
        b[a] >= 0x80,
        starts_digits(b, x) || !number_piece::<C>(b, a),
    ensures
        rules::unicode_piece_end::<C>(b, a) <= x,
{
    rules::lemma_here(b, a);
    lemma_after_upto(b, a, x);
    let q = util::after(b, a);
    if starts_digits(b, x) {
        lemma_after_last(b, a, x);
    }
    lemma_runs_stop::<C>(b, x);
    lemma_words_stop::<C>(b, q, b[a], x);
    lemma_others_stop::<C>(b, q, x);
    lemma_others_stop::<C>(b, a, x);
    lemma_contraction_stops::<C>(b, rules::camel_end::<C>(b, q, true), x);
    lemma_contraction_stops::<C>(b, rules::camel_end::<C>(b, q, false), x);
    rules::lemma_run_end::<C>(b, q, Class::Letter);
    lemma_contraction_stops::<C>(b, rules::run_end::<C>(b, q, Class::Letter), x);
    if q < x {
        lemma_prefixed_stop::<C>(b, q, x);
        if util::ascii_letter(b[q]) {
            lemma_contraction_stops::<C>(b, rules::prefixed_word_end::<C>(b, q), x);
        }
        lemma_contraction_stops::<C>(b, rules::run_end::<C>(b, q, Class::Lower), x);
        let z = util::after(b, q);
        rules::lemma_run_end::<C>(b, z, Class::Letter);
        lemma_contraction_stops::<C>(b, rules::run_end::<C>(b, z, Class::Letter), x);
    }
}

/// Before digits that start at `x`, no non-ASCII character ends.
proof fn lemma_after_last(b: Seq<u8>, a: int, x: int)
    requires
        util::boundary(b, a),
        0 <= a < x,
        x <= b.len(),
        b[a] >= 0x80,
        b[x - 1] < 0x80,
    ensures
        util::after(b, a) != x,
{
    util::lemma_after(b, a);
    if util::after(b, a) == x {
        assert(x - 1 > a);
        assert(is_continuation_byte(b[x - 1]));
    }
}

/// A piece that starts before a digit and is no number ends before it.
proof fn lemma_no_digit<C: PretokConfig>(b: Seq<u8>, a: int, x: int)
    requires
        stops_at(b, x),
        util::boundary(b, a),
        0 <= a < x,
        !number_piece::<C>(b, a),
    ensures
        rules::piece_end::<C>(b, a) <= x,
{
    lemma_runs_stop::<C>(b, x);
    rules::lemma_here(b, a);
    if b[a] >= 0x80 {
        lemma_unicode_stop::<C>(b, a, x);
    } else {
        lemma_marks_stop::<C>(b, a, x);
        lemma_words_stop::<C>(b, a + 1, b[a], x);
        lemma_contraction_stops::<C>(b, rules::word_end::<C>(b, a + 1, b[a]), x);
        lemma_others_stop::<C>(b, a, x);
    }
}

/// A piece that starts before digits ends before them.
proof fn lemma_no_cross<C: PretokConfig>(b: Seq<u8>, a: int, x: int)
    requires
        stops_at(b, x),
        starts_digits(b, x),
        !C::SPACE_PREFIXES_DIGITS,
        util::boundary(b, a),
        0 <= a < x,
    ensures
        rules::piece_end::<C>(b, a) <= x,
{
    lemma_runs_stop::<C>(b, x);
    rules::lemma_here(b, a);
    if b[a] >= 0x80 {
        lemma_unicode_stop::<C>(b, a, x);
    } else if util::ascii_digit(b[a]) {
        if a + 1 == x {
            assert(!util::ascii_digit(b[x - 1]));
        }
    } else {
        lemma_no_digit::<C>(b, a, x);
    }
}

/// What starts inside the character at `p` starts at `p`.
proof fn lemma_starts_here(b: Seq<u8>, p: int, q: int)
    requires
        util::boundary(b, p),
        util::boundary(b, q),
        0 <= p <= q < b.len(),
        q < util::after(b, p),
    ensures
        q == p,
{
    if p < q {
        lemma_after_upto(b, p, q);
    }
}

/// Where digits are single, an ASCII digit is a piece of its own.
pub proof fn law_digit_alone<C: PretokConfig>(b: Seq<u8>, p: int, x: int)
    requires
        C::DIGIT_MODE == DigitMode::Single,
        !C::SPACE_PREFIXES_DIGITS,
        valid_utf8(b),
        util::boundary(b, p),
        0 <= p <= x < rules::piece_end::<C>(b, p),
        p < b.len(),
        util::ascii_digit(b[x]),
    ensures
        p == x,
        rules::piece_end::<C>(b, p) == x + 1,
{
    rules::law_piece_end::<C>(b, p);
    text::lemma_lead_is_boundary(b, x);
    rules::lemma_here(b, p);
    if p < x {
        if !number_piece::<C>(b, p) {
            lemma_no_digit::<C>(b, p, x);
        }
        lemma_starts_here(b, p, x);
    }
}

/// Where digits come in threes, a piece with an ASCII digit in it is made of
/// at most three characters, all of them numeric.
pub proof fn law_digits_in_threes<C: PretokConfig>(b: Seq<u8>, p: int, x: int)
    requires
        C::DIGIT_MODE == DigitMode::Chunked3,
        !C::SPACE_PREFIXES_DIGITS,
        valid_utf8(b),
        util::boundary(b, p),
        0 <= p <= x < rules::piece_end::<C>(b, p),
        p < b.len(),
        util::ascii_digit(b[x]),
    ensures
        forall|q: int|
            p <= q < rules::piece_end::<C>(b, p) && #[trigger] util::boundary(b, q) ==> {
                &&& rules::member::<C>(b, q, Class::Number)
                &&& q == p || q == util::after(b, p) || q == util::after(b, util::after(b, p))
            },
{
    rules::law_piece_end::<C>(b, p);
    text::lemma_lead_is_boundary(b, x);
    rules::lemma_here(b, p);
    if p < x && !number_piece::<C>(b, p) {
        lemma_no_digit::<C>(b, p, x);
    }
    let p1 = util::after(b, p);
    let e = rules::piece_end::<C>(b, p);
    reveal_with_fuel(rules::run_end_upto, 4);
    if p1 < e {
        rules::lemma_here(b, p1);
        let p2 = util::after(b, p1);
        if p2 < e {
            rules::lemma_here(b, p2);
        }
    }
    assert forall|q: int| p <= q < e && #[trigger] util::boundary(b, q) implies {
        &&& rules::member::<C>(b, q, Class::Number)
        &&& q == p || q == p1 || q == util::after(b, p1)
    } by {
        if q < p1 {
            lemma_starts_here(b, p, q);
        } else if q < util::after(b, p1) {
            lemma_starts_here(b, p1, q);
        } else {
            lemma_starts_here(b, util::after(b, p1), q);
        }
    }
}

/// Where digits are not limited, no ASCII digit follows a piece with one in it.
pub proof fn law_digits_to_the_end<C: PretokConfig>(b: Seq<u8>, p: int, x: int)
    requires
        C::DIGIT_MODE == DigitMode::Unlimited,
        valid_utf8(b),
        util::boundary(b, p),
        0 <= p <= x < rules::piece_end::<C>(b, p),
        p < b.len(),
        util::ascii_digit(b[x]),
    ensures
        rules::piece_end::<C>(b, p) < b.len() ==> !util::ascii_digit(
            b[rules::piece_end::<C>(b, p)],
        ),
{
    rules::law_piece_end::<C>(b, p);
    text::lemma_lead_is_boundary(b, x);
    rules::lemma_here(b, p);
    if p < x && !number_piece::<C>(b, p) {
        lemma_no_digit::<C>(b, p, x);
    }
    let s = if number_at::<C>(b, p) {
        util::after(b, p)
    } else {
        rules::lemma_here(b, p + 1);
        util::after(b, p + 1)
    };
    lemma_run_is_whole::<C>(b, s, Class::Number);
}

/// A run ends where its class does.
proof fn lemma_run_is_whole<C: PretokConfig>(b: Seq<u8>, s: int, k: Class)
    requires
        util::boundary(b, s),
    ensures
        ({
            let e = rules::run_end::<C>(b, s, k);
            e < b.len() ==> !rules::member::<C>(b, e, k)
        }),
    decreases b.len() - s,
{
    if 0 <= s < b.len() {
        rules::lemma_here(b, s);
        if rules::member::<C>(b, s, k) {
            lemma_run_is_whole::<C>(b, util::after(b, s), k);
        }
    }
}

/// Pieces that lead past the start of digits lead to it.
proof fn lemma_leads_to_digits<C: PretokConfig>(b: Seq<u8>, a: int, x: int, p: int)
    requires
        stops_at(b, x),
        starts_digits(b, x),
        !C::SPACE_PREFIXES_DIGITS,
        util::boundary(b, a),
        0 <= a <= x <= p,
        batch::leads::<C>(b, a, p),
    ensures
        batch::leads::<C>(b, x, p),
    decreases x - a,
{
    if a < x {
        rules::law_piece_end::<C>(b, a);
        lemma_no_cross::<C>(b, a, x);
        lemma_leads_to_digits::<C>(b, rules::piece_end::<C>(b, a), x, p);
    }
}

/// From the start of digits on, a piece starts at every third of them.
proof fn lemma_thirds<C: PretokConfig>(b: Seq<u8>, x: int, p: int)
    requires
        util::boundary(b, x),
        0 <= x <= p < b.len(),
        C::DIGIT_MODE == DigitMode::Chunked3,
        forall|j: int| x <= j <= p ==> util::ascii_digit(#[trigger] b[j]),
        batch::leads::<C>(b, x, p),
    ensures
        (p - x) % 3 == 0,
    decreases p - x,
{
    if x < p {
        lemma_three::<C>(b, x, p);
        let e = rules::piece_end::<C>(b, x);
        rules::law_piece_end::<C>(b, x);
        assert(e == x + 3);
        lemma_thirds::<C>(b, e, p);
    }
}

/// A number that starts at `x` has three digits, if there are that many.
proof fn lemma_three<C: PretokConfig>(b: Seq<u8>, x: int, q: int)
    requires
        util::boundary(b, x),
        0 <= x < q < b.len(),
        C::DIGIT_MODE == DigitMode::Chunked3,
        forall|j: int| x <= j < q ==> util::ascii_digit(#[trigger] b[j]),
        b[q] < 0x80,
    ensures
        q <= x + 3 ==> rules::piece_end::<C>(b, x) >= q,
        q <= x + 2 ==> (rules::piece_end::<C>(b, x) > q <==> util::ascii_digit(b[q])),
        q >= x + 3 ==> rules::piece_end::<C>(b, x) == x + 3,
{
    assert(util::ascii_digit(b[x]));
    rules::lemma_here(b, x);
    reveal_with_fuel(rules::run_end_upto, 4);
    if x + 1 < q {
        assert(util::ascii_digit(b[x + 1]));
    }
    rules::lemma_here(b, x + 1);
    if x + 2 < q {
        assert(util::ascii_digit(b[x + 2]));
    }
    if x + 1 < b.len() && util::ascii_digit(b[x + 1]) {
        rules::lemma_here(b, x + 2);
    }
}

/// The start of digits is one, and all behind it are digits.
pub proof fn lemma_digit_start(b: Seq<u8>, q: int)
    requires
        0 <= q <= b.len(),
    ensures
        0 <= digit_start(b, q) <= q,
        forall|j: int| digit_start(b, q) <= j < q ==> util::ascii_digit(#[trigger] b[j]),
        digit_start(b, q) > 0 ==> !util::ascii_digit(b[digit_start(b, q) - 1]),
    decreases q,
{
    if q > 0 && util::ascii_digit(b[q - 1]) {
        lemma_digit_start(b, q - 1);
    }
}

proof fn lemma_digit_start_same(b: Seq<u8>, p: int, q: int)
    requires
        0 <= p <= q <= b.len(),
        forall|j: int| p <= j < q ==> util::ascii_digit(#[trigger] b[j]),
    ensures
        digit_start(b, q) == digit_start(b, p),
    decreases q - p,
{
    if p < q {
        assert(util::ascii_digit(b[q - 1]));
        lemma_digit_start_same(b, p, q - 1);
    }
}

/// A number of up to three digits that starts at `p`.
proof fn lemma_chunk<C: PretokConfig>(b: Seq<u8>, p: int, q: int)
    requires
        valid_utf8(b),
        batch::reached::<C>(b, p),
        util::boundary(b, p),
        0 <= p < q < b.len(),
        all_sure::<C>(b, p, q),
        util::ascii_digit(b[p]),
        C::DIGIT_MODE == DigitMode::Chunked3,
        q <= rules::piece_end::<C>(b, p),
    ensures
        rules::piece_end::<C>(b, p) == q <==> ends_plain::<C>(b, q),
{
    lemma_ascii::<C>(b, p, q);
    assert forall|j: int| p <= j < q implies util::ascii_digit(#[trigger] b[j]) by {
        if !util::ascii_digit(b[j]) {
            assert(util::boundary(b, j));
            assert(util::boundary(b, p + 1));
            lemma_upto_stops::<C>(b, p + 1, Class::Number, 2, j);
        }
    }
    lemma_three::<C>(b, p, q);
    assert(util::ascii_digit(b[q - 1]));
    if util::ascii_digit(b[q]) {
        assert(sure::<C>(b, q));
        lemma_digit_start_same(b, p, q);
        let x = digit_start(b, p);
        lemma_digit_start(b, p);
        assert(util::ascii_digit(b[x]));
        text::lemma_lead_is_boundary(b, x);
        util::lemma_boundary_ends(b);
        lemma_leads_to_digits::<C>(b, 0, x, p);
        assert forall|j: int| x <= j <= p implies util::ascii_digit(#[trigger] b[j]) by {}
        lemma_thirds::<C>(b, x, p);
    }
}

// ---- punctuation that starts no piece ----

/// The punctuation character at `x` goes along with what stands before it.
pub open spec fn along<C: PretokConfig>(b: Seq<u8>, x: int) -> bool {
    &&& valid_utf8(b)
    &&& util::boundary(b, x)
    &&& 0 < x < b.len()
    &&& rules::member::<C>(b, x, Class::Punct)
    &&& goes_along::<C>(b, x)
    &&& b[x] >= 0x80 ==> plain_mark::<C>(util::char_at(b, x))
}

/// A non-ASCII punctuation character is nothing else.
pub open spec fn plain_mark<C: PretokConfig>(c: char) -> bool {
    &&& !rules::letter_char::<C>(c)
    &&& !util::char_is_numeric(c)
    &&& !util::char_is_whitespace(c)
    &&& C::WS_EXCEPTION == WsException::Cjk ==> !rules::cjk(c)
}

/// A run that starts before `x` does not end there, where its class holds
/// neither blanks nor punctuation.
proof fn lemma_run_misses<C: PretokConfig>(b: Seq<u8>, s: int, k: Class, x: int)
    requires
        util::boundary(b, s),
        s < x <= b.len(),
        b[x - 1] < 0x80,
        !rules::class_byte::<C>(k, b[x - 1]),
    ensures
        rules::run_end::<C>(b, s, k) != x,
    decreases x - s,
{
    if rules::member::<C>(b, s, k) {
        rules::lemma_here(b, s);
        let t = util::after(b, s);
        if t < x {
            lemma_run_misses::<C>(b, t, k, x);
        } else {
            if b[s] >= 0x80 {
                lemma_after_last(b, s, x);
            }
            rules::lemma_run_end::<C>(b, t, k);
        }
    }
}

proof fn lemma_upto_misses<C: PretokConfig>(b: Seq<u8>, s: int, k: Class, n: nat, x: int)
    requires
        util::boundary(b, s),
        s < x <= b.len(),
        b[x - 1] < 0x80,
        !rules::class_byte::<C>(k, b[x - 1]),
    ensures
        rules::run_end_upto::<C>(b, s, k, n) != x,
    decreases n,
{
    if n > 0 && rules::member::<C>(b, s, k) {
        rules::lemma_here(b, s);
        let t = util::after(b, s);
        if t < x {
            lemma_upto_misses::<C>(b, t, k, (n - 1) as nat, x);
        } else {
            if b[s] >= 0x80 {
                lemma_after_last(b, s, x);
            }
            rules::lemma_run_end_upto::<C>(b, t, k, (n - 1) as nat);
        }
    }
}

/// The classes of words and numbers hold neither blanks nor punctuation.
spec fn narrow(k: Class) -> bool {
    k != Class::Punct && k != Class::Trailing && k != Class::Space && k != Class::Newline
}

proof fn lemma_narrow<C: PretokConfig>(b: Seq<u8>, x: int)
    requires
        along::<C>(b, x),
    ensures
        b[x - 1] < 0x80,
        !util::ascii_letter(b[x - 1]),
        !util::ascii_digit(b[x - 1]),
        !util::newline(b[x - 1]),
        !util::ascii_letter(b[x]),
        !util::ascii_digit(b[x]),
        !white(b[x]),
        !rules::member::<C>(b, x, Class::Space),
        b[x] < 0x80 ==> rules::punct_byte::<C>(b[x]),
        forall|s: int, k: Class|
            s < x && util::boundary(b, s) && (narrow(k) || k == Class::Newline)
                ==> #[trigger] rules::run_end::<C>(b, s, k) != x,
        forall|s: int|
            s < x && util::boundary(b, s) ==> #[trigger] rules::number_end::<C>(b, s) != x,
{
    assert forall|s: int, k: Class|
        s < x && util::boundary(b, s) && (narrow(k) || k == Class::Newline) implies #[trigger] rules::run_end::<
        C,
    >(b, s, k) != x by {
        lemma_run_misses::<C>(b, s, k, x);
    }
    assert forall|s: int| s < x && util::boundary(b, s) implies #[trigger] rules::number_end::<C>(
        b,
        s,
    ) != x by {
        lemma_run_misses::<C>(b, s, Class::Number, x);
        lemma_upto_misses::<C>(b, s, Class::Number, 2, x);
    }
}

/// No contraction ends behind a blank or punctuation.
proof fn lemma_contraction_misses<C: PretokConfig>(b: Seq<u8>, e: int, x: int)
    requires
        along::<C>(b, x),
        0 <= e,
        e != x,
    ensures
        e + rules::contraction_len::<C>(b, e) != x,
        rules::with_suffix::<C>(b, e) != x,
        rules::with_contraction::<C>(b, e) != x,
{
    let y = b[x - 1];
    assert(0x61 <= (y | 0x20) <= 0x7a ==> 0x41 <= y <= 0x5a || 0x61 <= y <= 0x7a) by (bit_vector);
    lemma_narrow::<C>(b, x);
}

/// No word ends behind a blank or punctuation.
proof fn lemma_words_miss<C: PretokConfig>(b: Seq<u8>, p: int, first: u8, x: int)
    requires
        along::<C>(b, x),
        util::boundary(b, p),
        p < x,
    ensures
        rules::upper_then_lower_end::<C>(b, p) != x,
        rules::word_end::<C>(b, p, first) != x,
        rules::camel_end::<C>(b, p, true) != x,
        rules::camel_end::<C>(b, p, false) != x,
        rules::upper_then_lower_end::<C>(b, p) >= 0,
        rules::word_end::<C>(b, p, first) >= 0,
        rules::camel_end::<C>(b, p, true) >= 0,
        rules::camel_end::<C>(b, p, false) >= 0,
{
    lemma_narrow::<C>(b, x);
    let q = rules::run_end::<C>(b, p, Class::Upper);
    rules::lemma_run_end::<C>(b, p, Class::Upper);
    rules::lemma_run_end::<C>(b, p, Class::Lower);
    rules::lemma_run_end::<C>(b, p, Class::Letter);
    if q < b.len() {
        rules::lemma_here(b, q);
        let t = util::after(b, q);
        rules::lemma_run_end::<C>(b, t, Class::Lower);
        if q < x && t >= x && b[q] >= 0x80 {
            lemma_after_last(b, q, x);
        }
    }
}

/// No punctuation run and no whitespace ends where punctuation goes along.
proof fn lemma_others_miss<C: PretokConfig>(b: Seq<u8>, p: int, x: int)
    requires
        along::<C>(b, x),
        util::boundary(b, p),
        p <= x,
    ensures
        rules::punct_end::<C>(b, p) != x,
        p < x - 1 ==> rules::space_end::<C>(b, p) != x,
{
    lemma_narrow::<C>(b, x);
    let r = rules::run_end::<C>(b, p, Class::Punct);
    rules::lemma_run_end::<C>(b, p, Class::Punct);
    rules::lemma_run_end::<C>(b, r, Class::Trailing);
    lemma_punct_not_at::<C>(b, p, x);
    if r < x {
        lemma_run_misses::<C>(b, r, Class::Trailing, x);
    }
    if p < x - 1 {
        let e = rules::run_end::<C>(b, p, Class::Space);
        rules::lemma_run_end::<C>(b, p, Class::Space);
        lemma_run_stops::<C>(b, p, Class::Space, x);
        lemma_newline_found(b, p, e);
        rules::lemma_last_start_boundary(b, p, p, e);
        if e == x {
            lemma_last_start_from(b, p, x - 1, e);
        }
    }
}

/// A punctuation run does not end at punctuation.
proof fn lemma_punct_not_at<C: PretokConfig>(b: Seq<u8>, s: int, x: int)
    requires
        util::boundary(b, s),
        0 <= s <= x < b.len(),
        util::boundary(b, x),
        rules::member::<C>(b, x, Class::Punct),
    ensures
        rules::run_end::<C>(b, s, Class::Punct) != x,
    decreases x - s,
{
    rules::lemma_here(b, s);
    if s < x {
        if rules::member::<C>(b, s, Class::Punct) {
            lemma_after_upto(b, s, x);
            lemma_punct_not_at::<C>(b, util::after(b, s), x);
        }
    } else {
        rules::lemma_run_end::<C>(b, s, Class::Punct);
    }
}

/// No word behind a prefix ends there.
proof fn lemma_prefixed_miss<C: PretokConfig>(b: Seq<u8>, p: int, x: int)
    requires
        along::<C>(b, x),
        util::boundary(b, p),
        0 <= p < x,
    ensures
        util::ascii_letter(b[p]) ==> 0 <= rules::prefixed_word_end::<C>(b, p),
        util::ascii_letter(b[p]) ==> rules::prefixed_word_end::<C>(b, p) != x,
        0 <= rules::run_end::<C>(b, p, Class::Letter),
        rules::run_end::<C>(b, p, Class::Letter) != x,
        0 <= rules::run_end::<C>(b, p, Class::Lower),
        rules::run_end::<C>(b, p, Class::Lower) != x,
        b[p] >= 0x80 ==> rules::prefixed_unicode_word_end::<C>(b, p) != x,
        b[p] >= 0x80 ==> util::after(b, p) != x,
        util::after(b, p) <= x,
        util::boundary(b, util::after(b, p)),
        b[p] < 0x80 ==> util::after(b, p) == p + 1,
        util::ascii_letter(b[p]) ==> p + 1 < x,
{
    lemma_narrow::<C>(b, x);
    rules::lemma_here(b, p);
    lemma_after_upto(b, p, x);
    let q = util::after(b, p);
    if b[p] >= 0x80 {
        lemma_after_last(b, p, x);
    }
    rules::lemma_run_end::<C>(b, q, Class::AsciiLetter);
    rules::lemma_run_end::<C>(b, p, Class::Letter);
    rules::lemma_run_end::<C>(b, p, Class::Lower);
    lemma_contraction_misses::<C>(b, rules::run_end::<C>(b, p, Class::Letter), x);
    if q < x {
        lemma_words_miss::<C>(b, q, b[p], x);
        lemma_contraction_misses::<C>(b, rules::camel_end::<C>(b, q, true), x);
        lemma_contraction_misses::<C>(b, rules::camel_end::<C>(b, q, false), x);
    }
}

/// No piece that starts with an ASCII mark or blank ends there.
proof fn lemma_marks_miss<C: PretokConfig>(b: Seq<u8>, a: int, x: int)
    requires
        along::<C>(b, x),
        util::boundary(b, a),
        0 <= a < x,
        b[a] < 0x80,
    ensures
        b[a] == 0x27 ==> rules::apostrophe_piece_end::<C>(b, a) != x,
        rules::ascii_punct_piece_end::<C>(b, a) != x,
        util::blank(b[a]) ==> rules::blank_piece_end::<C>(b, a) != x,
{
    rules::lemma_here(b, a);
    lemma_narrow::<C>(b, x);
    lemma_others_miss::<C>(b, a + 1, x);
    lemma_others_miss::<C>(b, a, x);
    lemma_contraction_misses::<C>(b, a, x);
    if a + 1 < x {
        lemma_prefixed_miss::<C>(b, a + 1, x);
        if util::ascii_letter(b[a + 1]) {
            lemma_contraction_misses::<C>(b, rules::prefixed_word_end::<C>(b, a + 1), x);
            lemma_words_miss::<C>(b, a + 2, b[a + 1], x);
            lemma_contraction_misses::<C>(b, rules::word_end::<C>(b, a + 2, b[a + 1]), x);
        }
        lemma_contraction_misses::<C>(b, rules::run_end::<C>(b, a + 1, Class::Letter), x);
    }
}

/// No piece that starts with a non-ASCII character ends there.
proof fn lemma_unicode_miss<C: PretokConfig>(b: Seq<u8>, a: int, x: int)
    requires
        along::<C>(b, x),
        util::boundary(b, a),
        0 <= a < x,
        b[a] >= 0x80,
    ensures
        rules::unicode_piece_end::<C>(b, a) != x,
{
    rules::lemma_here(b, a);
    lemma_narrow::<C>(b, x);
    lemma_after_upto(b, a, x);
    lemma_after_last(b, a, x);
    let q = util::after(b, a);
    lemma_words_miss::<C>(b, q, b[a], x);
    lemma_others_miss::<C>(b, q, x);
    lemma_others_miss::<C>(b, a, x);
    lemma_contraction_misses::<C>(b, rules::camel_end::<C>(b, q, true), x);
    lemma_contraction_misses::<C>(b, rules::camel_end::<C>(b, q, false), x);
    rules::lemma_run_end::<C>(b, q, Class::Letter);
    lemma_contraction_misses::<C>(b, rules::run_end::<C>(b, q, Class::Letter), x);
    lemma_prefixed_miss::<C>(b, q, x);
    if util::ascii_letter(b[q]) {
        lemma_contraction_misses::<C>(b, rules::prefixed_word_end::<C>(b, q), x);
    }
    lemma_contraction_misses::<C>(b, rules::run_end::<C>(b, q, Class::Lower), x);
    let z = util::after(b, q);
    rules::lemma_run_end::<C>(b, z, Class::Letter);
    if z < x {
        lemma_contraction_misses::<C>(b, rules::run_end::<C>(b, z, Class::Letter), x);
    }
}

/// No piece ends where punctuation goes along with what stands before it.
proof fn lemma_no_end<C: PretokConfig>(b: Seq<u8>, a: int, x: int)
    requires
        along::<C>(b, x),
        util::boundary(b, a),
        0 <= a < x,
    ensures
        rules::piece_end::<C>(b, a) != x,
{
    rules::lemma_here(b, a);
    lemma_narrow::<C>(b, x);
    if b[a] >= 0x80 {
        lemma_unicode_miss::<C>(b, a, x);
    } else {
        lemma_marks_miss::<C>(b, a, x);
        lemma_others_miss::<C>(b, a, x);
        if a + 1 < x {
            lemma_words_miss::<C>(b, a + 1, b[a], x);
            lemma_contraction_misses::<C>(b, rules::word_end::<C>(b, a + 1, b[a]), x);
        }
    }
}

/// No piece starts there.
pub proof fn lemma_not_reached<C: PretokConfig>(b: Seq<u8>, x: int)
    requires
        along::<C>(b, x),
    ensures
        !batch::reached::<C>(b, x),
{
    util::lemma_boundary_ends(b);
    lemma_not_led_to::<C>(b, 0, x);
}

proof fn lemma_not_led_to<C: PretokConfig>(b: Seq<u8>, a: int, x: int)
    requires
        along::<C>(b, x),
        util::boundary(b, a),
        0 <= a < x,
    ensures
        !batch::leads::<C>(b, a, x),
    decreases x - a,
{
    rules::law_piece_end::<C>(b, a);
    lemma_no_end::<C>(b, a, x);
    let e = rules::piece_end::<C>(b, a);
    if e < x {
        lemma_not_led_to::<C>(b, e, x);
    }
}

// ---- all pieces ----

/// The bytes around a sure position tell whether the piece that has come up to
/// it ends there, if the piece is no contraction.
proof fn lemma_ends_plain<C: PretokConfig>(b: Seq<u8>, p: int, q: int)
    requires
        valid_utf8(b),
        batch::reached::<C>(b, p),
        util::boundary(b, p),
        0 <= p < q < b.len(),
        all_sure::<C>(b, p, q),
        q <= rules::piece_end::<C>(b, p),
        contraction::<C>(b, p) == 0,
    ensures
        rules::piece_end::<C>(b, p) == q <==> ends_plain::<C>(b, q),
    decreases q, 2int,
{
    lemma_ascii::<C>(b, p, q);
    let first = b[p];
    assert(sure::<C>(b, p));
    assert(sure::<C>(b, q));
    assert(util::boundary(b, p + 1));
    if util::ascii_letter(first) {
        lemma_word::<C>(b, p, q);
        lemma_no_suffix::<C>(b, rules::word_end::<C>(b, p + 1, first), q);
    } else if util::ascii_digit(first) {
        if C::DIGIT_MODE == DigitMode::Chunked3 {
            lemma_chunk::<C>(b, p, q);
        } else {
            lemma_number::<C>(b, p, q);
        }
    } else if util::blank(first) {
        lemma_blank_piece::<C>(b, p, q);
    } else if util::newline(first) {
        if C::WS_PATTERN == WsPattern::Cl100k {
            lemma_run::<C>(b, p + 1, Class::Newline, q);
            assert forall|j: int| p <= j < q implies util::newline(#[trigger] b[j]) by {
                if j > p && !util::newline(b[j]) {
                    assert(!rules::class_byte::<C>(Class::Newline, b[j]));
                }
            }
            assert(util::newline(b[q - 1]));
        } else {
            lemma_space::<C>(b, p, q);
        }
    } else {
        lemma_punct_piece::<C>(b, p, q);
    }
}

/// No contraction follows up to a sure position.
proof fn lemma_no_suffix<C: PretokConfig>(b: Seq<u8>, e: int, q: int)
    requires
        0 <= e,
        q < b.len(),
        e <= q && !apostrophes_told::<C>() ==> b[e] != 0x27,
    ensures
        e <= q ==> rules::with_suffix::<C>(b, e) == e,
        e <= q && C::LETTER_MODE == LetterMode::CamelCase ==> rules::with_contraction::<C>(b, e)
            == e,
        e > q ==> rules::with_suffix::<C>(b, e) > q && rules::with_contraction::<C>(b, e) > q,
{
}

/// Where a punctuation character stands behind what starts it afresh, a piece
/// from further back ends before it.
proof fn lemma_fresh<C: PretokConfig>(b: Seq<u8>, p: int, q: int)
    requires
        valid_utf8(b),
        batch::reached::<C>(b, p),
        util::boundary(b, p),
        0 <= p < q - 1,
        q < b.len(),
        all_sure::<C>(b, p, q),
        q <= rules::piece_end::<C>(b, p),
        rules::punct_byte::<C>(b[q - 1]),
        util::ascii_letter(b[q]),
        contraction::<C>(b, p) == 0,
    ensures
        !starts_afresh::<C>(b, q - 1),
    decreases q, 0int,
{
    if starts_afresh::<C>(b, q - 1) {
        assert(sure::<C>(b, q - 1));
        assert(all_sure::<C>(b, p, q - 1));
        lemma_ends_plain::<C>(b, p, q - 1);
    }
}

/// What follows the first letter of a word, a first digit or punctuation goes
/// on from there.
proof fn lemma_goes_on<C: PretokConfig>(b: Seq<u8>, s: int)
    requires
        util::boundary(b, s),
    ensures
        forall|first: u8| #[trigger] rules::word_end::<C>(b, s, first) >= s,
        rules::number_end::<C>(b, s) >= s,
        rules::punct_end::<C>(b, s) >= s,
        rules::run_end::<C>(b, s, Class::AsciiLetter) >= s,
{
    rules::lemma_run_end::<C>(b, s, Class::Letter);
    rules::lemma_run_end::<C>(b, s, Class::AsciiLetter);
    rules::lemma_run_end::<C>(b, s, Class::Lower);
    rules::lemma_run_end::<C>(b, s, Class::Number);
    rules::lemma_run_end::<C>(b, s, Class::Upper);
    rules::lemma_run_end::<C>(b, s, Class::Punct);
    rules::lemma_run_end::<C>(b, rules::run_end::<C>(b, s, Class::Punct), Class::Trailing);
    rules::lemma_run_end_upto::<C>(b, s, Class::Number, 2);
    let q = rules::run_end::<C>(b, s, Class::Upper);
    if q < b.len() {
        rules::lemma_here(b, q);
        rules::lemma_run_end::<C>(b, util::after(b, q), Class::Lower);
    }
}

/// A piece that starts with a blank.
proof fn lemma_blank_piece<C: PretokConfig>(b: Seq<u8>, p: int, q: int)
    requires
        valid_utf8(b),
        batch::reached::<C>(b, p),
        util::boundary(b, p),
        0 <= p < q < b.len(),
        all_sure::<C>(b, p, q),
        q <= rules::piece_end::<C>(b, p),
        util::blank(b[p]),
    ensures
        rules::piece_end::<C>(b, p) == q <==> ends_plain::<C>(b, q),
    decreases q, 1int,
{
    lemma_ascii::<C>(b, p, q);
    let next = b[p + 1];
    assert(sure::<C>(b, p + 1));
    assert(sure::<C>(b, q));
    assert(util::boundary(b, p + 1));
    rules::lemma_here(b, p + 1);
    lemma_goes_on::<C>(b, p + 2);
    assert(all_sure::<C>(b, p + 1, q));
    if util::ascii_letter(next) {
        if q > p + 1 {
            lemma_word::<C>(b, p + 1, q);
        }
        lemma_no_suffix::<C>(b, rules::word_end::<C>(b, p + 2, next), q);
    } else if C::SPACE_PREFIXES_DIGITS && util::ascii_digit(next) {
        if q > p + 1 {
            if C::DIGIT_MODE == DigitMode::Chunked3 {
                if q > p + 2 {
                    assert(sure::<C>(b, p + 2));
                    assert(!util::ascii_digit(b[p + 2]));
                    lemma_upto_stops::<C>(b, p + 2, Class::Number, 2, p + 2);
                }
                assert(q == p + 2);
                lemma_upto_stops::<C>(b, p + 2, Class::Number, 2, p + 2);
            } else {
                lemma_number::<C>(b, p + 1, q);
            }
        }
    } else if rules::punct_byte::<C>(next) {
        if q > p + 1 {
            if util::ascii_letter(b[q]) && rules::punct_byte::<C>(b[q - 1]) {
                lemma_fresh::<C>(b, p, q);
            }
            lemma_punct::<C>(b, p + 1, q);
        } else {
            lemma_run::<C>(b, p + 1, Class::Punct, p + 1);
            let r = rules::run_end::<C>(b, p + 1, Class::Punct);
            rules::lemma_run_end::<C>(b, p + 1, Class::Punct);
            rules::lemma_run_end::<C>(b, r, Class::Trailing);
        }
    } else if util::ascii_digit(next) && C::WS_PATTERN == WsPattern::Gpt2 {
    } else {
        lemma_space::<C>(b, p, q);
    }
}

/// A piece that starts with ASCII punctuation.
proof fn lemma_punct_piece<C: PretokConfig>(b: Seq<u8>, p: int, q: int)
    requires
        valid_utf8(b),
        batch::reached::<C>(b, p),
        util::boundary(b, p),
        0 <= p < q < b.len(),
        all_sure::<C>(b, p, q),
        q <= rules::piece_end::<C>(b, p),
        rules::punct_byte::<C>(b[p]),
        !util::ascii_letter(b[p]),
        !util::ascii_digit(b[p]),
        !white(b[p]),
        contraction::<C>(b, p) == 0,
    ensures
        rules::piece_end::<C>(b, p) == q <==> ends_plain::<C>(b, q),
    decreases q, 1int,
{
    lemma_ascii::<C>(b, p, q);
    assert(sure::<C>(b, p));
    assert(sure::<C>(b, p + 1));
    assert(sure::<C>(b, q));
    assert(util::boundary(b, p + 1));
    assert(all_sure::<C>(b, p + 1, q));
    if b[p] == 0x27 && goes_along::<C>(b, p) {
        lemma_not_reached::<C>(b, p);
    }
    if C::PUNCT_PREFIX_MODE == PunctPrefixMode::SpaceOnly && b[p] != 0x27 {
        if util::ascii_letter(b[q]) && b[q - 1] == 0x27 {
            lemma_fresh::<C>(b, p, q);
        }
        lemma_punct::<C>(b, p + 1, q);
    } else if util::ascii_letter(b[p + 1]) {
        rules::lemma_here(b, p + 1);
        lemma_goes_on::<C>(b, p + 2);
        if q > p + 1 {
            lemma_prefixed_word::<C>(b, p + 1, q);
        } else if goes_along::<C>(b, p) {
            lemma_not_reached::<C>(b, p);
        }
        lemma_no_suffix::<C>(b, rules::prefixed_word_end::<C>(b, p + 1), q);
    } else {
        if util::ascii_letter(b[q]) && rules::punct_byte::<C>(b[q - 1]) {
            lemma_fresh::<C>(b, p, q);
        }
        lemma_punct::<C>(b, p + 1, q);
    }
}

// ---- contractions ----

/// A contraction is made of an apostrophe and letters.
proof fn lemma_contraction_letters<C: PretokConfig>(b: Seq<u8>, x: int)
    requires
        0 <= x < b.len(),
    ensures
        ({
            let n = rules::contraction_len::<C>(b, x);
            &&& n == 0 || n == 2 || n == 3
            &&& n > 0 ==> b[x] == 0x27 && x + 1 < b.len() && util::ascii_letter(b[x + 1])
            &&& n == 3 ==> x + 2 < b.len() && util::ascii_letter(b[x + 2])
        }),
{
    let y = b[x + 1];
    let z = b[x + 2];
    assert(0x61 <= (y | 0x20) <= 0x7a ==> 0x41 <= y <= 0x5a || 0x61 <= y <= 0x7a) by (bit_vector);
    assert(0x61 <= (z | 0x20) <= 0x7a ==> 0x41 <= z <= 0x5a || 0x61 <= z <= 0x7a) by (bit_vector);
}

/// The apostrophe at `x` starts a piece.
spec fn leads_off<C: PretokConfig>(b: Seq<u8>, x: int) -> bool {
    &&& valid_utf8(b)
    &&& util::boundary(b, x)
    &&& 0 <= x < b.len()
    &&& b[x] == 0x27
    &&& starts_afresh::<C>(b, x)
    &&& apostrophes_told::<C>()
}

/// Runs stop before an apostrophe that starts a piece.
proof fn lemma_runs_before<C: PretokConfig>(b: Seq<u8>, x: int)
    requires
        leads_off::<C>(b, x),
        0 < x,
    ensures
        b[x - 1] < 0x80,
        forall|s: int, k: Class|
            s <= x && util::boundary(b, s) && k != Class::Punct ==> #[trigger] rules::run_end::<C>(
                b,
                s,
                k,
            ) <= x,
        forall|s: int|
            s < x && util::boundary(b, s) ==> #[trigger] rules::run_end::<C>(b, s, Class::Punct)
                < x,
        forall|s: int|
            s <= x && util::boundary(b, s) ==> #[trigger] rules::number_end::<C>(b, s) <= x,
        forall|s: int|
            s < x && util::boundary(b, s) ==> #[trigger] rules::punct_end::<C>(b, s) <= x,
        forall|s: int|
            0 <= s < x && util::boundary(b, s) ==> #[trigger] rules::space_end::<C>(b, s) <= x,
{
    text::lemma_lead_is_boundary(b, x - 1);
    assert forall|s: int, k: Class|
        s <= x && util::boundary(b, s) && k != Class::Punct implies #[trigger] rules::run_end::<
        C,
    >(b, s, k) <= x by {
        lemma_run_stops::<C>(b, s, k, x);
    }
    assert forall|s: int| s < x && util::boundary(b, s) implies #[trigger] rules::run_end::<C>(
        b,
        s,
        Class::Punct,
    ) < x by {
        lemma_run_stops::<C>(b, s, Class::Punct, x - 1);
    }
    assert forall|s: int| s <= x && util::boundary(b, s) implies #[trigger] rules::number_end::<C>(
        b,
        s,
    ) <= x by {
        lemma_upto_stops::<C>(b, s, Class::Number, 2, x);
        assert(rules::run_end::<C>(b, s, Class::Number) <= x);
    }
    assert forall|s: int| s < x && util::boundary(b, s) implies #[trigger] rules::punct_end::<C>(
        b,
        s,
    ) <= x by {
        let r = rules::run_end::<C>(b, s, Class::Punct);
        rules::lemma_run_end::<C>(b, s, Class::Punct);
        assert(rules::run_end::<C>(b, r, Class::Trailing) <= x);
    }
    assert forall|s: int| 0 <= s < x && util::boundary(b, s) implies #[trigger] rules::space_end::<
        C,
    >(b, s) <= x by {
        let e = rules::run_end::<C>(b, s, Class::Space);
        rules::lemma_run_end::<C>(b, s, Class::Space);
        lemma_newline_found(b, s, e);
        rules::lemma_last_start_boundary(b, s, s, e);
    }
}

/// A piece that starts before an apostrophe that starts a piece ends before it.
proof fn lemma_piece_before<C: PretokConfig>(b: Seq<u8>, a: int, x: int)
    requires
        leads_off::<C>(b, x),
        util::boundary(b, a),
        0 <= a < x,
    ensures
        rules::piece_end::<C>(b, a) <= x,
{
    lemma_runs_before::<C>(b, x);
    rules::lemma_here(b, a);
    lemma_after_upto(b, a, x);
    let q = util::after(b, a);
    lemma_contraction_letters::<C>(b, a);
    if b[a] >= 0x80 {
        lemma_after_last(b, a, x);
    }
    if q < x {
        rules::lemma_here(b, q);
        lemma_after_upto(b, q, x);
        if b[q] >= 0x80 {
            lemma_after_last(b, q, x);
        }
    }
}

/// Pieces that lead past an apostrophe that starts a piece lead to it.
proof fn lemma_leads_to_mark<C: PretokConfig>(b: Seq<u8>, a: int, x: int, p: int)
    requires
        leads_off::<C>(b, x),
        util::boundary(b, a),
        0 <= a <= x <= p,
        batch::leads::<C>(b, a, p),
    ensures
        batch::leads::<C>(b, x, p),
    decreases x - a,
{
    if a < x {
        rules::law_piece_end::<C>(b, a);
        lemma_piece_before::<C>(b, a, x);
        lemma_leads_to_mark::<C>(b, rules::piece_end::<C>(b, a), x, p);
    }
}

/// A piece that reaches into a contraction is the contraction.
proof fn lemma_contraction_is_piece<C: PretokConfig>(b: Seq<u8>, p: int, q: int, x: int)
    requires
        valid_utf8(b),
        batch::reached::<C>(b, p),
        util::boundary(b, p),
        0 <= p < q <= rules::piece_end::<C>(b, p),
        0 <= x < q <= x + contraction::<C>(b, x),
    ensures
        p == x,
{
    lemma_contraction_letters::<C>(b, x);
    text::lemma_lead_is_boundary(b, x);
    if p < x {
        lemma_piece_before::<C>(b, p, x);
    } else if p > x {
        util::lemma_boundary_ends(b);
        lemma_leads_to_mark::<C>(b, 0, x, p);
        assert(rules::piece_end::<C>(b, x) == x + contraction::<C>(b, x));
    }
}

/// The bytes around a sure position tell whether the piece that has come up to
/// it ends there.
pub proof fn lemma_ends_here<C: PretokConfig>(b: Seq<u8>, p: int, q: int)
    requires
        valid_utf8(b),
        batch::reached::<C>(b, p),
        util::boundary(b, p),
        0 <= p < q < b.len(),
        all_sure::<C>(b, p, q),
        q <= rules::piece_end::<C>(b, p),
    ensures
        rules::piece_end::<C>(b, p) == q <==> ends_here::<C>(b, q),
{
    if contraction::<C>(b, p) > 0 {
        lemma_contraction_letters::<C>(b, p);
        if p >= 1 {
            lemma_contraction_letters::<C>(b, p - 1);
        }
        if p >= 2 {
            lemma_contraction_letters::<C>(b, p - 2);
        }
    } else {
        lemma_contraction_letters::<C>(b, p);
        lemma_ends_plain::<C>(b, p, q);
        assert forall|x: int| q - 3 <= x < q && q <= x + #[trigger] contraction::<C>(b, x) implies p
            == x by {
            lemma_contraction_is_piece::<C>(b, p, q, x);
        }
    }
}

} // verus!
