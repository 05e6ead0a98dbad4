//! Contractions that belong to the camel-case word before them, written as
//! letters of that word.
//!
//! Where a word takes the contraction behind it, "don't" makes a piece as
//! "donaa" does. So the pieces of a text are those of the text in which such
//! contractions are written with letters, if nothing follows them that a word
//! or another contraction could go on with.
use super::batch;
use super::classes;
use super::classes::classify_uni;
use super::config::{
    ContractionCase, ContractionMode, LetterMode, PretokConfig, PunctPrefixMode,
};
use super::rules;
use super::rules::Class;
use super::util;
use super::util::{is_ascii_letter, is_lower};
use crate::text;
use vstd::prelude::*;
use vstd::utf8::*;

verus! {

/// Under the config, camel-case words take the contractions behind them.
pub open spec fn joining<C: PretokConfig>() -> bool {
    &&& C::LETTER_MODE == LetterMode::CamelCase
    &&& C::CONTRACTION_MODE == ContractionMode::Suffix
    &&& C::PUNCT_PREFIX_MODE != PunctPrefixMode::AsciiOnly
}

/// The length of the contraction at `x` that is written as letters; 0 where
/// there is none. It stands behind a letter, is in lower case, and no letter,
/// apostrophe or non-ASCII character follows it.
pub open spec fn joined_len<C: PretokConfig>(b: Seq<u8>, x: int) -> int {
    let n = rules::contraction_len::<C>(b, x);
    if joining::<C>() && 0 < x < b.len() && util::ascii_letter(b[x - 1]) && n > 0
        && util::ascii_lower(b[x + 1]) && (n == 3 ==> util::ascii_lower(b[x + 2])) && (x + n
        < b.len() ==> b[x + n] < 0x80 && !util::ascii_letter(b[x + n]) && b[x + n] != 0x27) {
        n
    } else {
        0
    }
}

/// The byte at `i` is part of a contraction that is written as letters.
pub open spec fn rewritten<C: PretokConfig>(b: Seq<u8>, i: int) -> bool {
    joined_len::<C>(b, i) > 0 || joined_len::<C>(b, i - 1) > 0 || joined_len::<C>(b, i - 2) == 3
}

/// The byte of the joined form.
pub open spec fn joined_byte<C: PretokConfig>(b: Seq<u8>, i: int) -> u8 {
    if rewritten::<C>(b, i) {
        0x61
    } else {
        b[i]
    }
}

/// The joined form of a text: contractions that belong to the word before them
/// are written as letters.
pub open spec fn joined<C: PretokConfig>(b: Seq<u8>) -> Seq<u8> {
    Seq::new(b.len(), |i: int| joined_byte::<C>(b, i))
}

/// What is known of a contraction that is written as letters.
proof fn lemma_join<C: PretokConfig>(b: Seq<u8>, x: int)
    ensures
        ({
            let n = joined_len::<C>(b, x);
            &&& n == 0 || n == 2 || n == 3
            &&& n > 0 ==> joining::<C>() && 0 < x && x + n <= b.len() && b[x] == 0x27
                && util::ascii_lower(b[x + 1])
            &&& n == 3 ==> util::ascii_lower(b[x + 2])
        }),
{
}

/// The bytes of the joined form: apostrophes that became letters, letters in
/// lower case, and what stayed.
proof fn lemma_joined_bytes<C: PretokConfig>(b: Seq<u8>)
    ensures
        forall|i: int|
            0 <= i < b.len() ==> {
                let y = #[trigger] joined::<C>(b)[i];
                if joined_len::<C>(b, i) > 0 {
                    y == 0x61 && b[i] == 0x27
                } else {
                    y == b[i] || (y == 0x61 && util::ascii_lower(b[i]))
                }
            },
{
    assert forall|i: int| 0 <= i < b.len() implies {
        let y = #[trigger] joined::<C>(b)[i];
        if joined_len::<C>(b, i) > 0 {
            y == 0x61 && b[i] == 0x27
        } else {
            y == b[i] || (y == 0x61 && util::ascii_lower(b[i]))
        }
    } by {
        lemma_join::<C>(b, i);
        lemma_join::<C>(b, i - 1);
        lemma_join::<C>(b, i - 2);
    }
}

/// The bytes of a contraction that is written as letters, and what follows it.
proof fn lemma_joined_at<C: PretokConfig>(b: Seq<u8>, x: int)
    requires
        joined_len::<C>(b, x) > 0,
    ensures
        ({
            let v = joined::<C>(b);
            let n = joined_len::<C>(b, x);
            &&& forall|i: int| x <= i < x + n ==> #[trigger] v[i] == 0x61
            &&& x + n < b.len() ==> v[x + n] == b[x + n]
            &&& x + n < b.len() ==> joined_len::<C>(b, x + n) == 0
        }),
{
    let n = joined_len::<C>(b, x);
    lemma_join::<C>(b, x);
    lemma_joined_bytes::<C>(b);
    lemma_join::<C>(b, x + n);
    assert forall|i: int| x <= i < x + n implies #[trigger] joined::<C>(b)[i] == 0x61 by {
        assert(rewritten::<C>(b, i));
    }
}

/// Boundaries and non-ASCII characters stay.
proof fn lemma_joined_boundary<C: PretokConfig>(b: Seq<u8>, p: int)
    requires
        util::boundary(b, p),
    ensures
        util::boundary(joined::<C>(b), p),
        p < b.len() ==> util::after(joined::<C>(b), p) == util::after(b, p),
        p < b.len() && b[p] >= 0x80 ==> joined::<C>(b)[p] == b[p] && util::char_at(
            joined::<C>(b),
            p,
        ) == util::char_at(b, p),
    decreases b.len() - p,
{
    let v = joined::<C>(b);
    lemma_joined_bytes::<C>(b);
    if p < b.len() {
        util::lemma_after(b, p);
        let e = util::after(b, p);
        lemma_joined_boundary::<C>(b, e);
        let (t, u) = (util::tail(b, p), util::tail(v, p));
        assert(u[0] == v[p] && t[0] == b[p]);
        assert forall|i: int| 0 <= i < e - p && b[p] >= 0x80 implies u[i] == t[i] by {
            assert(v[p + i] == b[p + i]);
        }
        assert(b[p] >= 0x80 && e - p >= 2 ==> u[1] == t[1]);
        assert(b[p] >= 0x80 && e - p >= 3 ==> u[2] == t[2]);
        assert(b[p] >= 0x80 && e - p >= 4 ==> u[3] == t[3]);
        assert(pop_first_scalar(u) =~= util::tail(v, e));
    } else {
        assert(util::tail(v, p) =~= util::tail(b, p));
    }
}

/// The joined form of a text is a text.
pub proof fn lemma_joined_valid<C: PretokConfig>(b: Seq<u8>)
    requires
        valid_utf8(b),
    ensures
        valid_utf8(joined::<C>(b)),
{
    util::lemma_boundary_ends(b);
    lemma_joined_boundary::<C>(b, 0);
    assert(util::tail(joined::<C>(b), 0) =~= joined::<C>(b));
}

// ---- runs ----

/// The end of a word, with the contraction that is written as letters.
spec fn onward<C: PretokConfig>(b: Seq<u8>, e: int) -> int {
    e + joined_len::<C>(b, e)
}

/// Runs that hold neither apostrophes nor lower-case letters end alike.
proof fn lemma_same_run<C: PretokConfig>(b: Seq<u8>, p: int, k: Class)
    requires
        util::boundary(b, p),
        k is Number || k is Trailing || k is Newline || k is Space || k is Upper || (k is Punct
            && joined_len::<C>(b, p) == 0),
    ensures
        rules::run_end::<C>(joined::<C>(b), p, k) == rules::run_end::<C>(b, p, k),
    decreases b.len() - p,
{
    let v = joined::<C>(b);
    lemma_joined_bytes::<C>(b);
    lemma_joined_boundary::<C>(b, p);
    if p < b.len() {
        util::lemma_after(b, p);
        let e = util::after(b, p);
        if rules::member::<C>(b, p, k) {
            if k is Punct && joined_len::<C>(b, e) > 0 {
                // A letter stands before it.
                assert(util::ascii_letter(b[e - 1]));
                assert(b[p] >= 0x80 ==> is_continuation_byte(b[e - 1]));
            }
            lemma_same_run::<C>(b, e, k);
        }
    }
}

/// Runs of letters go on through contractions that are written as letters.
proof fn lemma_onward_run<C: PretokConfig>(b: Seq<u8>, p: int, k: Class)
    requires
        util::boundary(b, p),
        k is Letter || k is Lower,
    ensures
        rules::run_end::<C>(joined::<C>(b), p, k) == onward::<C>(b, rules::run_end::<C>(b, p, k)),
    decreases b.len() - p,
{
    let v = joined::<C>(b);
    lemma_joined_bytes::<C>(b);
    lemma_joined_boundary::<C>(b, p);
    lemma_join::<C>(b, p);
    if p < b.len() {
        util::lemma_after(b, p);
        let e = util::after(b, p);
        if rules::member::<C>(b, p, k) {
            lemma_onward_run::<C>(b, e, k);
        } else if joined_len::<C>(b, p) > 0 {
            let n = joined_len::<C>(b, p);
            lemma_joined_at::<C>(b, p);
            lemma_through::<C>(v, p, p + n, k);
        }
    }
}

/// A run of letters goes through letters in lower case, up to what is none.
proof fn lemma_through<C: PretokConfig>(v: Seq<u8>, p: int, e: int, k: Class)
    requires
        k is Letter || k is Lower,
        0 <= p <= e <= v.len(),
        forall|i: int| p <= i < e ==> #[trigger] v[i] == 0x61,
        e < v.len() ==> v[e] < 0x80 && !util::ascii_letter(v[e]),
    ensures
        rules::run_end::<C>(v, p, k) == e,
    decreases e - p,
{
    if p < e {
        assert(v[p] == 0x61);
        lemma_through::<C>(v, p + 1, e, k);
    }
}

/// Camel-case words go on through contractions that are written as letters.
proof fn lemma_onward_camel<C: PretokConfig>(b: Seq<u8>, p: int)
    requires
        util::boundary(b, p),
    ensures
        rules::upper_then_lower_end::<C>(joined::<C>(b), p) == onward::<C>(
            b,
            rules::upper_then_lower_end::<C>(b, p),
        ),
        rules::upper_then_lower_end::<C>(b, p) >= 0,
{
    let v = joined::<C>(b);
    lemma_joined_bytes::<C>(b);
    lemma_same_run::<C>(b, p, Class::Upper);
    rules::lemma_run_end::<C>(b, p, Class::Upper);
    let q = rules::run_end::<C>(b, p, Class::Upper);
    lemma_joined_boundary::<C>(b, q);
    lemma_join::<C>(b, q);
    if q < b.len() {
        util::lemma_after(b, q);
        if joined_len::<C>(b, q) > 0 {
            lemma_joined_at::<C>(b, q);
            lemma_through::<C>(v, q + 1, q + joined_len::<C>(b, q), Class::Lower);
        } else if rules::member::<C>(b, q, Class::Descent) {
            lemma_onward_run::<C>(b, util::after(b, q), Class::Lower);
            rules::lemma_run_end::<C>(b, util::after(b, q), Class::Lower);
        }
    }
}

/// Behind a word, the contraction that it takes ends alike.
proof fn lemma_joined_suffix<C: PretokConfig>(b: Seq<u8>, e: int)
    requires
        0 <= e <= b.len(),
    ensures
        onward::<C>(b, e) + rules::contraction_len::<C>(joined::<C>(b), onward::<C>(b, e)) == e
            + rules::contraction_len::<C>(b, e),
{
    let v = joined::<C>(b);
    lemma_joined_bytes::<C>(b);
    lemma_join::<C>(b, e);
    if joined_len::<C>(b, e) > 0 {
        lemma_joined_at::<C>(b, e);
    } else {
        let (y, z) = (b[e + 1], b[e + 2]);
        assert(0x27u8 | 0x20 == 0x27 && 0x61u8 | 0x20 == 0x61) by (bit_vector);
        lemma_join::<C>(b, e - 1);
        lemma_join::<C>(b, e - 2);
        lemma_join::<C>(b, e + 1);
        lemma_join::<C>(b, e + 2);
    }
}

// ---- pieces ----

/// Words end alike, with the contractions that they take.
proof fn lemma_joined_word<C: PretokConfig>(b: Seq<u8>, p: int, first: u8)
    requires
        joining::<C>(),
        util::boundary(b, p),
    ensures
        ({
            let v = joined::<C>(b);
            &&& rules::with_suffix::<C>(v, rules::word_end::<C>(v, p, first))
                == rules::with_suffix::<C>(b, rules::word_end::<C>(b, p, first))
            &&& forall|lower: bool|
                rules::with_suffix::<C>(v, #[trigger] rules::camel_end::<C>(v, p, lower))
                    == rules::with_suffix::<C>(b, rules::camel_end::<C>(b, p, lower))
            &&& rules::with_suffix::<C>(v, rules::run_end::<C>(v, p, Class::Letter))
                == rules::with_suffix::<C>(b, rules::run_end::<C>(b, p, Class::Letter))
            &&& rules::with_suffix::<C>(v, rules::run_end::<C>(v, p, Class::Lower))
                == rules::with_suffix::<C>(b, rules::run_end::<C>(b, p, Class::Lower))
        }),
{
    lemma_onward_run::<C>(b, p, Class::Letter);
    lemma_onward_run::<C>(b, p, Class::Lower);
    lemma_onward_camel::<C>(b, p);
    rules::lemma_run_end::<C>(b, p, Class::Letter);
    rules::lemma_run_end::<C>(b, p, Class::Lower);
    rules::lemma_upper_then_lower_end::<C>(b, p);
    lemma_joined_suffix::<C>(b, rules::run_end::<C>(b, p, Class::Letter));
    lemma_joined_suffix::<C>(b, rules::run_end::<C>(b, p, Class::Lower));
    lemma_joined_suffix::<C>(b, rules::upper_then_lower_end::<C>(b, p));
}

/// Numbers, punctuation and whitespace end alike.
proof fn lemma_joined_others<C: PretokConfig>(b: Seq<u8>, p: int)
    requires
        util::boundary(b, p),
    ensures
        rules::number_end::<C>(joined::<C>(b), p) == rules::number_end::<C>(b, p),
        joined_len::<C>(b, p) == 0 ==> rules::punct_end::<C>(joined::<C>(b), p)
            == rules::punct_end::<C>(b, p),
        rules::run_end::<C>(joined::<C>(b), p, Class::Newline) == rules::run_end::<C>(
            b,
            p,
            Class::Newline,
        ),
        p < b.len() ==> rules::space_end::<C>(joined::<C>(b), p) == rules::space_end::<C>(b, p),
{
    let v = joined::<C>(b);
    lemma_joined_bytes::<C>(b);
    lemma_same_run::<C>(b, p, Class::Number);
    lemma_same_upto::<C>(b, p, 2);
    lemma_same_run::<C>(b, p, Class::Newline);
    lemma_same_run::<C>(b, p, Class::Space);
    if joined_len::<C>(b, p) == 0 {
        lemma_same_run::<C>(b, p, Class::Punct);
        rules::lemma_run_end::<C>(b, p, Class::Punct);
        lemma_same_run::<C>(b, rules::run_end::<C>(b, p, Class::Punct), Class::Trailing);
    }
    if p < b.len() {
        let e = rules::run_end::<C>(b, p, Class::Space);
        rules::lemma_run_end::<C>(b, p, Class::Space);
        lemma_joined_lasts::<C>(b, p, e);
        lemma_joined_boundary::<C>(b, e);
        lemma_join::<C>(b, e);
    }
}

proof fn lemma_same_upto<C: PretokConfig>(b: Seq<u8>, p: int, n: nat)
    requires
        util::boundary(b, p),
    ensures
        rules::run_end_upto::<C>(joined::<C>(b), p, Class::Number, n) == rules::run_end_upto::<C>(
            b,
            p,
            Class::Number,
            n,
        ),
    decreases n,
{
    lemma_joined_bytes::<C>(b);
    lemma_joined_boundary::<C>(b, p);
    if p < b.len() && n > 0 {
        util::lemma_after(b, p);
        lemma_same_upto::<C>(b, util::after(b, p), (n - 1) as nat);
    }
}

/// The last character and the last newline stay where they are.
proof fn lemma_joined_lasts<C: PretokConfig>(b: Seq<u8>, p: int, e: int)
    requires
        0 <= p,
        e <= b.len(),
    ensures
        rules::last_start(joined::<C>(b), p, e) == rules::last_start(b, p, e),
        rules::last_newline_end(joined::<C>(b), p, e) == rules::last_newline_end(b, p, e),
    decreases e - p,
{
    if e > p {
        lemma_joined_bytes::<C>(b);
        assert(joined::<C>(b)[e - 1] == b[e - 1] || b[e - 1] < 0x80);
        lemma_joined_lasts::<C>(b, p, e - 1);
    }
}

/// A piece that starts with a contraction that is written as letters ends
/// alike.
proof fn lemma_joined_apostrophe<C: PretokConfig>(b: Seq<u8>, p: int)
    requires
        joined_len::<C>(b, p) > 0,
        util::boundary(b, p),
    ensures
        rules::piece_end::<C>(joined::<C>(b), p) == rules::piece_end::<C>(b, p),
{
    let v = joined::<C>(b);
    let n = joined_len::<C>(b, p);
    lemma_join::<C>(b, p);
    lemma_joined_at::<C>(b, p);
    lemma_through::<C>(v, p + 1, p + n, Class::Lower);
    reveal_with_fuel(rules::run_end, 3);
}

/// The pieces of a text are those of its joined form.
pub proof fn law_joined_pieces<C: PretokConfig>(b: Seq<u8>, p: int)
    requires
        util::boundary(b, p),
        p < b.len(),
    ensures
        rules::piece_end::<C>(joined::<C>(b), p) == rules::piece_end::<C>(b, p),
        util::boundary(joined::<C>(b), p),
{
    let v = joined::<C>(b);
    lemma_joined_bytes::<C>(b);
    lemma_joined_boundary::<C>(b, p);
    if !joining::<C>() {
        assert(v =~= b);
    } else if joined_len::<C>(b, p) > 0 {
        lemma_joined_apostrophe::<C>(b, p);
    } else {
        util::lemma_after(b, p);
        let q = util::after(b, p);
        lemma_joined_boundary::<C>(b, q);
        lemma_joined_others::<C>(b, p);
        lemma_joined_others::<C>(b, q);
        lemma_joined_word::<C>(b, q, b[p]);
        lemma_joined_word::<C>(b, q, v[p]);
        lemma_join::<C>(b, q);
        if joined_len::<C>(b, q) > 0 {
            assert(util::ascii_letter(b[q - 1]));
            assert(b[p] >= 0x80 ==> is_continuation_byte(b[q - 1]));
        } else if q < b.len() {
            util::lemma_after(b, q);
            let z = util::after(b, q);
            lemma_joined_word::<C>(b, z, b[q]);
            lemma_joined_word::<C>(b, z, v[q]);
            lemma_joined_others::<C>(b, z);
        }
    }
}

/// Where pieces of a text lead, those of its joined form lead.
proof fn lemma_joined_leads<C: PretokConfig>(b: Seq<u8>, a: int, p: int)
    requires
        util::boundary(b, a),
        batch::leads::<C>(b, a, p),
    ensures
        batch::leads::<C>(joined::<C>(b), a, p),
    decreases p - a,
{
    if a != p {
        law_joined_pieces::<C>(b, a);
        rules::law_piece_end::<C>(b, a);
        lemma_joined_leads::<C>(b, rules::piece_end::<C>(b, a), p);
    }
}

/// A piece of the joined form starts where one of the text starts.
pub proof fn lemma_joined_reached<C: PretokConfig>(b: Seq<u8>, p: int)
    requires
        valid_utf8(b),
        batch::reached::<C>(b, p),
    ensures
        batch::reached::<C>(joined::<C>(b), p),
{
    util::lemma_boundary_ends(b);
    lemma_joined_leads::<C>(b, 0, p);
}

// ---- rewriting ----

/// The character that a byte belongs to starts where it did.
proof fn lemma_joined_lead<C: PretokConfig>(b: Seq<u8>, i: int)
    requires
        0 <= i < b.len(),
    ensures
        classes::lead(joined::<C>(b), i) == classes::lead(b, i),
        0 <= classes::lead(b, i) <= i,
    decreases i,
{
    lemma_joined_bytes::<C>(b);
    if i > 0 && is_continuation_byte(b[i]) {
        assert(joined::<C>(b)[i] == b[i]);
        lemma_joined_lead::<C>(b, i - 1);
    }
}

/// A byte that belongs to a non-ASCII character belongs to one that starts at
/// a boundary.
proof fn lemma_lead_boundary(b: Seq<u8>, i: int)
    requires
        valid_utf8(b),
        0 <= i < b.len(),
        b[i] >= 0x80,
    ensures
        util::boundary(b, classes::lead(b, i)),
        b[classes::lead(b, i)] >= 0x80,
    decreases i,
{
    if i > 0 && is_continuation_byte(b[i]) {
        if b[i - 1] < 0x80 {
            text::lemma_lead_is_boundary(b, i - 1);
            util::lemma_after(b, i - 1);
            util::lemma_after(b, i);
        } else {
            lemma_lead_boundary(b, i - 1);
        }
    } else if i == 0 {
        util::lemma_boundary_ends(b);
    } else {
        text::lemma_lead_is_boundary(b, i);
    }
}

/// The flat form of the joined form: letters for what is rewritten, else the
/// flat form of the text.
pub proof fn lemma_flat_joined<C: PretokConfig>(b: Seq<u8>, i: int)
    requires
        valid_utf8(b),
        0 <= i < b.len(),
    ensures
        classes::flat::<C>(joined::<C>(b))[i] == if rewritten::<C>(b, i) {
            0x61
        } else {
            classes::flat::<C>(b)[i]
        },
{
    let v = joined::<C>(b);
    lemma_joined_bytes::<C>(b);
    if !rewritten::<C>(b, i) && b[i] >= 0x80 {
        lemma_lead_boundary(b, i);
        lemma_joined_lead::<C>(b, i);
        let l = classes::lead(b, i);
        lemma_joined_boundary::<C>(b, l);
        util::lemma_after(b, l);
        let q = util::after(b, l);
        lemma_joined_boundary::<C>(b, q);
        lemma_join::<C>(b, q);
        if q < b.len() {
            assert(is_continuation_byte(b[q - 1]));
            assert(joined_len::<C>(b, q) == 0);
            assert(v[q] == b[q] || (v[q] == 0x61 && util::ascii_lower(b[q])));
        }
    }
}

/// A byte as a contraction compares it.
pub(super) fn fold<C: PretokConfig>(x: u8) -> (r: u8)
    ensures
        r == rules::folded::<C>(x),
{
    if C::CONTRACTION_CASE == ContractionCase::Insensitive {
        x | 0x20
    } else {
        x
    }
}

/// The length of the contraction at `x` that is written as letters.
fn joined_at<C: PretokConfig>(bytes: &[u8], x: usize) -> (n: usize)
    requires
        joining::<C>(),
        x < bytes@.len(),
    ensures
        n == joined_len::<C>(bytes@, x as int),
{
    let len: usize = bytes.len();
    if bytes[x] != 0x27 || x == 0 || len - x < 2 || !is_ascii_letter(bytes[x - 1]) || !is_lower(
        bytes[x + 1],
    ) {
        return 0;
    }
    let b1: u8 = fold::<C>(bytes[x + 1]);
    let mut n: usize = 0;
    if b1 == 0x73 || b1 == 0x74 || b1 == 0x64 || b1 == 0x6d {
        n = 2;
    } else if len - x >= 3 && is_lower(bytes[x + 2]) {
        let b2: u8 = fold::<C>(bytes[x + 2]);
        if (b1 == 0x6c && b2 == 0x6c) || (b1 == 0x76 && b2 == 0x65) || (b1 == 0x72 && b2 == 0x65) {
            n = 3;
        }
    }
    if n > 0 && n < len - x {
        let next: u8 = bytes[x + n];
        if next >= 0x80 || is_ascii_letter(next) || next == 0x27 {
            return 0;
        }
    }
    n
}

/// Is the byte at `i` part of a contraction that is written as letters?
fn is_rewritten<C: PretokConfig>(bytes: &[u8], i: usize) -> (r: bool)
    requires
        joining::<C>(),
        i < bytes@.len(),
    ensures
        r == rewritten::<C>(bytes@, i as int),
{
    joined_at::<C>(bytes, i) > 0 || (i >= 1 && joined_at::<C>(bytes, i - 1) > 0) || (i >= 2
        && joined_at::<C>(bytes, i - 2) == 3)
}

/// The form of a text in which pieces are told: contractions that belong to
/// words are letters of them, and characters of a clear class are ASCII.
pub open spec fn form<C: PretokConfig>(b: Seq<u8>) -> Seq<u8> {
    classes::flat::<C>(joined::<C>(b))
}

/// The form of `bytes[from..to]`.
pub fn form_of<C: PretokConfig>(bytes: &[u8], from: usize, to: usize) -> (r: Vec<u8>)
    requires
        valid_utf8(bytes@),
        from < to <= bytes@.len(),
    ensures
        r@ == form::<C>(bytes@).subrange(from as int, to as int),
{
    let ghost b = bytes@;
    let mut w = classify_uni::<C>(bytes, from, to);
    if C::LETTER_MODE != LetterMode::CamelCase || C::CONTRACTION_MODE != ContractionMode::Suffix
        || C::PUNCT_PREFIX_MODE == PunctPrefixMode::AsciiOnly {
        assert(joined::<C>(b) =~= b);
        return w;
    }
    let ghost flat = classes::flat::<C>(b).subrange(from as int, to as int);
    let mut i: usize = from;
    while i < to
        invariant
            joining::<C>(),
            valid_utf8(b),
            b == bytes@,
            from <= i <= to <= b.len(),
            flat == classes::flat::<C>(b).subrange(from as int, to as int),
            w@.len() == to - from,
            forall|k: int|
                0 <= k < to - from ==> #[trigger] w@[k] == if k < i - from {
                    form::<C>(b)[from + k]
                } else {
                    flat[k]
                },
        decreases to - i,
    {
        proof {
            lemma_flat_joined::<C>(b, i as int);
        }
        if is_rewritten::<C>(bytes, i) {
            w.set(i - from, 0x61);
        }
        i = i + 1;
    }
    assert(w@ =~= form::<C>(b).subrange(from as int, to as int));
    w
}

/// The form of a text is a text, and its pieces are those of the text.
pub proof fn law_form_pieces<C: PretokConfig>(b: Seq<u8>, p: int)
    requires
        valid_utf8(b),
        batch::reached::<C>(b, p),
        util::boundary(b, p),
        p < b.len(),
    ensures
        valid_utf8(form::<C>(b)),
        rules::piece_end::<C>(form::<C>(b), p) == rules::piece_end::<C>(b, p),
        util::boundary(form::<C>(b), p),
        batch::reached::<C>(form::<C>(b), p),
{
    let j = joined::<C>(b);
    lemma_joined_valid::<C>(b);
    law_joined_pieces::<C>(b, p);
    lemma_joined_reached::<C>(b, p);
    classes::lemma_flat_valid::<C>(j);
    classes::law_flat_pieces::<C>(j, p);
    classes::lemma_flat_reached::<C>(j, p);
}

} // verus!
