//! Where a piece ends: the rules that the scalar scanner and the batch
//! scanner both follow.
//!
//! A rule is stated over the bytes of a text and a position in it. Most rules
//! are maximal runs of a character class; [`piece_end`] puts them together.
use super::config::{
    ContractionCase, ContractionMode, DigitMode, LetterMode, PretokConfig, PunctClass,
    PunctPrefixMode, PunctTrailing, WsException, WsPattern,
};
use super::util;
use vstd::prelude::*;
use vstd::string::*;

verus! {

/// The character classes whose runs make up pieces.
#[derive(Clone, Copy, PartialEq, Eq, Structural)]
pub enum Class {
    /// Continues a word: `\p{L}` or, where marks belong to words, `[\p{Alphabetic}\p{M}]`.
    Letter,
    /// `[A-Za-z]`.
    AsciiLetter,
    /// Continues the lower-case part of a camel-case word.
    Lower,
    /// Continues the upper-case part of a camel-case word.
    Upper,
    /// Leads from the upper-case part of a camel-case word to the lower-case part.
    Descent,
    /// `\p{N}`.
    Number,
    /// The punctuation class of the config.
    Punct,
    /// What may follow a punctuation group.
    Trailing,
    /// `[\r\n]`.
    Newline,
    /// `\s`, of which only space, tab, `\r` and `\n` are ASCII.
    Space,
}

/// An ASCII punctuation byte of the config.
pub open spec fn punct_byte<C: PretokConfig>(b: u8) -> bool {
    if C::PUNCT_CLASS == PunctClass::PunctSymbolOnly {
        0x21 <= b <= 0x2f || 0x3a <= b <= 0x40 || 0x5b <= b <= 0x60 || 0x7b <= b <= 0x7e
    } else {
        b < 0x80 && !util::ascii_letter(b) && !util::ascii_digit(b) && !util::blank(b) && !util::newline(b)
    }
}

/// A non-ASCII punctuation character of the config.
pub open spec fn unicode_punct<C: PretokConfig>(c: char) -> bool {
    if C::PUNCT_CLASS == PunctClass::PunctSymbolOnly {
        util::punct_or_symbol(c)
    } else if C::LETTER_MODE == LetterMode::Plain {
        !util::unicode_letter(c) && !util::char_is_numeric(c) && !util::char_is_whitespace(c)
    } else {
        !util::char_is_alphabetic(c) && !util::char_is_numeric(c) && !util::char_is_whitespace(c) && !util::unicode_mark(c)
    }
}

/// A non-ASCII character that can start a word under the config.
pub open spec fn letter_char<C: PretokConfig>(c: char) -> bool {
    if C::LETTER_MODE == LetterMode::Plain {
        util::unicode_letter(c)
    } else {
        util::char_is_alphabetic(c) || util::unicode_mark(c)
    }
}

/// The ASCII part of a class.
pub open spec fn class_byte<C: PretokConfig>(k: Class, b: u8) -> bool {
    match k {
        Class::Letter => util::ascii_letter(b),
        Class::AsciiLetter => util::ascii_letter(b),
        Class::Lower => util::ascii_lower(b),
        Class::Upper => util::ascii_upper(b),
        Class::Descent => util::ascii_lower(b),
        Class::Number => util::ascii_digit(b),
        Class::Punct => punct_byte::<C>(b),
        Class::Trailing => match C::PUNCT_TRAILING {
            PunctTrailing::Absent => false,
            PunctTrailing::Newlines => util::newline(b),
            PunctTrailing::NewlinesAndSlashes => util::newline(b) || b == 0x2f,
        },
        Class::Newline => util::newline(b),
        Class::Space => util::blank(b) || util::newline(b),
    }
}

/// The non-ASCII part of a class.
pub open spec fn class_char<C: PretokConfig>(k: Class, c: char) -> bool {
    match k {
        Class::Letter => if C::LETTER_MODE == LetterMode::PlainWithMarks {
            util::char_is_alphabetic(c) || util::unicode_mark(c)
        } else {
            util::unicode_letter(c)
        },
        Class::AsciiLetter => false,
        Class::Lower => util::unicode_mark(c) || util::char_is_lowercase(c) || (util::unicode_letter(c)
            && !util::char_is_uppercase(c)),
        Class::Upper => util::char_is_uppercase(c) || (util::unicode_letter(c) && !util::char_is_lowercase(c)
            && !util::unicode_mark(c)),
        Class::Descent => !util::char_is_uppercase(c) && (util::char_is_lowercase(c) || util::unicode_mark(c)),
        Class::Number => util::char_is_numeric(c),
        Class::Punct => unicode_punct::<C>(c),
        Class::Trailing => false,
        Class::Newline => false,
        Class::Space => util::char_is_whitespace(c),
    }
}

/// The character that starts at `p` belongs to the class.
pub open spec fn member<C: PretokConfig>(b: Seq<u8>, p: int, k: Class) -> bool {
    if b[p] < 0x80 {
        class_byte::<C>(k, b[p])
    } else {
        class_char::<C>(k, util::char_at(b, p))
    }
}

/// The end of the longest run of characters of the class that starts at `p`.
pub open spec fn run_end<C: PretokConfig>(b: Seq<u8>, p: int, k: Class) -> int
    decreases b.len() - p,
{
    if 0 <= p < b.len() && util::after(b, p) <= b.len() && member::<C>(b, p, k) {
        run_end::<C>(b, util::after(b, p), k)
    } else {
        p
    }
}

/// The end of the longest run of at most `n` characters of the class that starts at `p`.
pub open spec fn run_end_upto<C: PretokConfig>(b: Seq<u8>, p: int, k: Class, n: nat) -> int
    decreases n,
{
    if n > 0 && 0 <= p < b.len() && util::after(b, p) <= b.len() && member::<C>(b, p, k) {
        run_end_upto::<C>(b, util::after(b, p), k, (n - 1) as nat)
    } else {
        p
    }
}

/// The start of the last character before `e`, not before `p`.
pub open spec fn last_start(b: Seq<u8>, p: int, e: int) -> int
    decreases e - p,
{
    if e - 1 <= p {
        p
    } else if !vstd::utf8::is_continuation_byte(b[e - 1]) {
        e - 1
    } else {
        last_start(b, p, e - 1)
    }
}

/// The position after the last newline in `p..e`, or 0 where there is none.
pub open spec fn last_newline_end(b: Seq<u8>, p: int, e: int) -> int
    decreases e - p,
{
    if e <= p {
        0
    } else if util::newline(b[e - 1]) {
        e
    } else {
        last_newline_end(b, p, e - 1)
    }
}

// ---- words ----

/// An upper-case part that starts at `p`, and the lower-case part that follows it.
pub open spec fn upper_then_lower_end<C: PretokConfig>(b: Seq<u8>, p: int) -> int {
    let q = run_end::<C>(b, p, Class::Upper);
    if q < b.len() && member::<C>(b, q, Class::Descent) {
        run_end::<C>(b, util::after(b, q), Class::Lower)
    } else {
        q
    }
}

/// The rest of a word after its first character, the ASCII letter `first`.
pub open spec fn word_end<C: PretokConfig>(b: Seq<u8>, p: int, first: u8) -> int {
    if C::LETTER_MODE != LetterMode::CamelCase {
        run_end::<C>(b, p, Class::Letter)
    } else if util::ascii_lower(first) {
        run_end::<C>(b, p, Class::Lower)
    } else {
        upper_then_lower_end::<C>(b, p)
    }
}

/// The rest of a camel-case word after its first character, the non-ASCII `c`.
pub open spec fn camel_end<C: PretokConfig>(b: Seq<u8>, p: int, lower: bool) -> int {
    if lower {
        run_end::<C>(b, p, Class::Lower)
    } else {
        upper_then_lower_end::<C>(b, p)
    }
}

/// A byte as a contraction compares it.
pub open spec fn folded<C: PretokConfig>(b: u8) -> u8 {
    if C::CONTRACTION_CASE == ContractionCase::Insensitive {
        b | 0x20
    } else {
        b
    }
}

/// The length of the contraction that starts at `p`: `'s`, `'t`, `'d`, `'m`,
/// `'ll`, `'ve` or `'re`; 0 where there is none.
pub open spec fn contraction_len<C: PretokConfig>(b: Seq<u8>, p: int) -> int {
    if C::CONTRACTION_MODE == ContractionMode::Absent || p + 1 >= b.len() || b[p] != 0x27 {
        0
    } else {
        let b1 = folded::<C>(b[p + 1]);
        if b1 == 0x73 || b1 == 0x74 || b1 == 0x64 || b1 == 0x6d {
            2
        } else if p + 2 >= b.len() {
            0
        } else {
            let b2 = folded::<C>(b[p + 2]);
            if (b1 == 0x6c && b2 == 0x6c) || (b1 == 0x76 && b2 == 0x65) || (b1 == 0x72 && b2
                == 0x65) {
                3
            } else {
                0
            }
        }
    }
}

/// After a word: where contractions are suffixes, the one at `p` belongs to the word.
pub open spec fn with_suffix<C: PretokConfig>(b: Seq<u8>, p: int) -> int {
    if C::CONTRACTION_MODE == ContractionMode::Suffix {
        p + contraction_len::<C>(b, p)
    } else {
        p
    }
}

/// After a camel-case word: the contraction at `p` belongs to the word.
pub open spec fn with_contraction<C: PretokConfig>(b: Seq<u8>, p: int) -> int {
    p + contraction_len::<C>(b, p)
}

/// A word behind a one-character prefix, whose first letter is the ASCII letter at `p`.
pub open spec fn prefixed_word_end<C: PretokConfig>(b: Seq<u8>, p: int) -> int {
    if C::PUNCT_PREFIX_MODE == PunctPrefixMode::AsciiOnly {
        run_end::<C>(b, p + 1, Class::AsciiLetter)
    } else {
        word_end::<C>(b, p + 1, b[p])
    }
}

// ---- numbers, punctuation, whitespace ----

/// The rest of a number after its first numeric.
pub open spec fn number_end<C: PretokConfig>(b: Seq<u8>, p: int) -> int {
    match C::DIGIT_MODE {
        DigitMode::Unlimited => run_end::<C>(b, p, Class::Number),
        DigitMode::Chunked3 => run_end_upto::<C>(b, p, Class::Number, 2),
        DigitMode::Single => p,
    }
}

/// A punctuation run from `p` on, and what may trail it.
pub open spec fn punct_end<C: PretokConfig>(b: Seq<u8>, p: int) -> int {
    run_end::<C>(b, run_end::<C>(b, p, Class::Punct), Class::Trailing)
}

/// One of the characters that DeepSeek keeps whitespace whole in front of.
pub open spec fn cjk(c: char) -> bool {
    let cp = c as u32;
    0x4e00 <= cp <= 0x9fa5 || 0x3040 <= cp <= 0x309f || 0x30a0 <= cp <= 0x30ff
}

/// A whitespace run stays whole in front of the character at `e`.
pub open spec fn keeps_whole<C: PretokConfig>(b: Seq<u8>, e: int) -> bool {
    match C::WS_EXCEPTION {
        WsException::Absent => false,
        WsException::Digits => C::WS_PATTERN == WsPattern::Gpt2 && member::<C>(
            b,
            e,
            Class::Number,
        ),
        WsException::Cjk => C::WS_PATTERN == WsPattern::Cl100k && (util::ascii_digit(b[e]) || (b[e]
            >= 0x80 && cjk(util::char_at(b, e)))),
    }
}

/// `\s+(?!\S)|\s+`: the whole run at the end of the text, else all but its
/// last character, which is left to what follows, unless it is the only one.
pub open spec fn plain_space_end<C: PretokConfig>(b: Seq<u8>, p: int) -> int {
    let e = run_end::<C>(b, p, Class::Space);
    let l = last_start(b, p, e);
    if e < b.len() && l > p && !keeps_whole::<C>(b, e) {
        l
    } else {
        e
    }
}

/// A whitespace run that starts at `p`. Under the CL100K pattern
/// (`\s*[\r\n]|\s+(?!\S)|\s+`) it ends behind its last newline, if it has one.
pub open spec fn space_end<C: PretokConfig>(b: Seq<u8>, p: int) -> int {
    let e = run_end::<C>(b, p, Class::Space);
    let n = last_newline_end(b, p, e);
    if C::WS_PATTERN == WsPattern::Cl100k && n > 0 {
        n
    } else {
        plain_space_end::<C>(b, p)
    }
}

// ---- pieces, by their first character ----

/// A piece that starts with the apostrophe at `p`.
pub open spec fn apostrophe_piece_end<C: PretokConfig>(b: Seq<u8>, p: int) -> int {
    let n = contraction_len::<C>(b, p);
    if n > 0 && C::CONTRACTION_MODE == ContractionMode::Standalone {
        p + n
    } else if p + 1 >= b.len() {
        p + 1
    } else if util::ascii_letter(b[p + 1]) {
        with_suffix::<C>(b, prefixed_word_end::<C>(b, p + 1))
    } else if b[p + 1] >= 0x80 && letter_char::<C>(util::char_at(b, p + 1)) && C::PUNCT_PREFIX_MODE
        != PunctPrefixMode::AsciiOnly {
        let e = run_end::<C>(b, p + 1, Class::Letter);
        if C::LETTER_MODE == LetterMode::CamelCase {
            with_contraction::<C>(b, e)
        } else {
            with_suffix::<C>(b, e)
        }
    } else {
        punct_end::<C>(b, p + 1)
    }
}

/// A word that starts with the non-ASCII letter at `p`, behind a space or an
/// ASCII punctuation character.
pub open spec fn prefixed_unicode_word_end<C: PretokConfig>(b: Seq<u8>, p: int) -> int {
    let c = util::char_at(b, p);
    if C::LETTER_MODE == LetterMode::CamelCase {
        with_contraction::<C>(
            b,
            camel_end::<C>(b, util::after(b, p), util::char_is_lowercase(c) || util::unicode_mark(c)),
        )
    } else {
        with_suffix::<C>(b, run_end::<C>(b, p, Class::Letter))
    }
}

/// A piece that starts with the space or tab at `p`.
pub open spec fn blank_piece_end<C: PretokConfig>(b: Seq<u8>, p: int) -> int {
    if p + 1 >= b.len() {
        p + 1
    } else {
        let next = b[p + 1];
        let c = util::char_at(b, p + 1);
        if util::ascii_letter(next) {
            with_suffix::<C>(b, word_end::<C>(b, p + 2, next))
        } else if next >= 0x80 {
            if letter_char::<C>(c) {
                prefixed_unicode_word_end::<C>(b, p + 1)
            } else if util::char_is_numeric(c) && C::SPACE_PREFIXES_DIGITS {
                number_end::<C>(b, util::after(b, p + 1))
            } else if util::char_is_whitespace(c) || util::char_is_numeric(c) {
                space_end::<C>(b, p)
            } else {
                punct_end::<C>(b, p + 1)
            }
        } else if C::SPACE_PREFIXES_DIGITS && util::ascii_digit(next) {
            number_end::<C>(b, p + 2)
        } else if punct_byte::<C>(next) {
            punct_end::<C>(b, p + 1)
        } else if util::ascii_digit(next) && C::WS_PATTERN == WsPattern::Gpt2 {
            p + 1
        } else {
            space_end::<C>(b, p)
        }
    }
}

/// A piece that starts with the newline at `p`.
pub open spec fn newline_piece_end<C: PretokConfig>(b: Seq<u8>, p: int) -> int {
    if C::WS_PATTERN == WsPattern::Cl100k {
        run_end::<C>(b, p + 1, Class::Newline)
    } else {
        space_end::<C>(b, p)
    }
}

/// A piece that starts with a non-ASCII character outside DeepSeek's
/// punctuation class, which ends before `p`: the character prefixes a word or
/// stands alone.
pub open spec fn format_piece_end<C: PretokConfig>(b: Seq<u8>, p: int) -> int {
    if p < b.len() && util::ascii_letter(b[p]) {
        with_suffix::<C>(b, run_end::<C>(b, p + 1, Class::Letter))
    } else if p < b.len() && b[p] >= 0x80 && letter_char::<C>(util::char_at(b, p)) {
        with_suffix::<C>(b, run_end::<C>(b, util::after(b, p), Class::Letter))
    } else {
        p
    }
}

/// A piece that starts with a non-ASCII punctuation character, which ends before `p`.
pub open spec fn symbol_piece_end<C: PretokConfig>(b: Seq<u8>, p: int) -> int {
    if C::PUNCT_PREFIX_MODE != PunctPrefixMode::Any {
        punct_end::<C>(b, p)
    } else if p >= b.len() {
        p
    } else if util::ascii_letter(b[p]) {
        if C::LETTER_MODE == LetterMode::CamelCase {
            with_contraction::<C>(b, prefixed_word_end::<C>(b, p))
        } else {
            with_suffix::<C>(b, prefixed_word_end::<C>(b, p))
        }
    } else if b[p] >= 0x80 && letter_char::<C>(util::char_at(b, p)) {
        if C::LETTER_MODE == LetterMode::CamelCase {
            with_contraction::<C>(b, run_end::<C>(b, p, Class::Lower))
        } else {
            run_end::<C>(b, p, Class::Letter)
        }
    } else {
        punct_end::<C>(b, p)
    }
}

/// A piece that starts with the non-ASCII character at `p`.
pub open spec fn unicode_piece_end<C: PretokConfig>(b: Seq<u8>, p: int) -> int {
    let c = util::char_at(b, p);
    let q = util::after(b, p);
    if letter_char::<C>(c) {
        if C::LETTER_MODE == LetterMode::CamelCase {
            with_suffix::<C>(b, camel_end::<C>(b, q, util::char_is_lowercase(c)))
        } else {
            with_suffix::<C>(b, run_end::<C>(b, q, Class::Letter))
        }
    } else if util::char_is_numeric(c) {
        number_end::<C>(b, q)
    } else if util::char_is_whitespace(c) {
        space_end::<C>(b, p)
    } else if C::PUNCT_CLASS == PunctClass::PunctSymbolOnly && !util::punct_or_symbol(c) {
        format_piece_end::<C>(b, q)
    } else {
        symbol_piece_end::<C>(b, q)
    }
}

/// A piece that starts with some other ASCII character at `p`.
pub open spec fn ascii_punct_piece_end<C: PretokConfig>(b: Seq<u8>, p: int) -> int {
    if C::PUNCT_PREFIX_MODE == PunctPrefixMode::SpaceOnly {
        punct_end::<C>(b, p + 1)
    } else if p + 1 >= b.len() {
        p + 1
    } else if util::ascii_letter(b[p + 1]) {
        if C::LETTER_MODE == LetterMode::CamelCase {
            with_contraction::<C>(b, prefixed_word_end::<C>(b, p + 1))
        } else {
            with_suffix::<C>(b, prefixed_word_end::<C>(b, p + 1))
        }
    } else if b[p + 1] >= 0x80 && letter_char::<C>(util::char_at(b, p + 1)) {
        prefixed_unicode_word_end::<C>(b, p + 1)
    } else {
        punct_end::<C>(b, p + 1)
    }
}

/// The end of the piece that starts at `p`.
pub open spec fn piece_end<C: PretokConfig>(b: Seq<u8>, p: int) -> int {
    let first = b[p];
    if util::ascii_letter(first) {
        with_suffix::<C>(b, word_end::<C>(b, p + 1, first))
    } else if first == 0x27 {
        apostrophe_piece_end::<C>(b, p)
    } else if util::ascii_digit(first) {
        number_end::<C>(b, p + 1)
    } else if util::blank(first) {
        blank_piece_end::<C>(b, p)
    } else if util::newline(first) {
        newline_piece_end::<C>(b, p)
    } else if first >= 0x80 {
        unicode_piece_end::<C>(b, p)
    } else {
        ascii_punct_piece_end::<C>(b, p)
    }
}

/// The pieces from `p` on, as pairs of a start and an end.
pub open spec fn spans<C: PretokConfig>(b: Seq<u8>, p: int) -> Seq<(int, int)>
    decreases b.len() - p,
{
    if 0 <= p < b.len() && p < piece_end::<C>(b, p) <= b.len() {
        seq![(p, piece_end::<C>(b, p))] + spans::<C>(b, piece_end::<C>(b, p))
    } else {
        seq![]
    }
}

/// The texts `pieces` are those of the spans of the text `b`.
pub open spec fn are_pieces(pieces: Seq<&str>, b: Seq<u8>, spans: Seq<(int, int)>) -> bool {
    &&& pieces.len() == spans.len()
    &&& forall|i: int|
        0 <= i < pieces.len() ==> (#[trigger] pieces[i]).spec_bytes() == b.subrange(
            spans[i].0,
            spans[i].1,
        )
}

/// Facts about the characters of a text at a boundary inside it.
pub(super) proof fn lemma_here(b: Seq<u8>, p: int)
    requires
        util::boundary(b, p),
    ensures
        p < b.len() ==> p < util::after(b, p) <= b.len() && util::boundary(b, util::after(b, p)),
        p < b.len() && b[p] < 0x80 ==> util::after(b, p) == p + 1,
{
    if p < b.len() {
        util::lemma_after(b, p);
    }
}

/// The last character before `e` starts at `q` when it is the one that `e` lies in or behind.
pub proof fn lemma_last_start(b: Seq<u8>, p: int, q: int, e: int)
    requires
        p <= q < e,
        q < b.len(),
        util::boundary(b, q),
        e <= util::after(b, q),
    ensures
        last_start(b, p, e) == q,
    decreases e - q,
{
    util::lemma_after(b, q);
    if e > q + 1 {
        lemma_last_start(b, p, q, e - 1);
    }
}

/// The last newline does not change over bytes that are no newlines.
pub proof fn lemma_last_newline(b: Seq<u8>, p: int, q: int, e: int)
    requires
        p <= q <= e <= b.len(),
        forall|i: int| q <= i < e ==> !util::newline(#[trigger] b[i]),
    ensures
        last_newline_end(b, p, e) == last_newline_end(b, p, q),
    decreases e - q,
{
    if e > q {
        assert(!util::newline(b[e - 1]));
        lemma_last_newline(b, p, q, e - 1);
    }
}

/// A newline that a run holds lies behind the run's start.
pub(super) proof fn lemma_newline_in_run(b: Seq<u8>, p: int, e: int)
    requires
        0 <= p <= e <= b.len(),
    ensures
        last_newline_end(b, p, e) == 0 || p < last_newline_end(b, p, e) <= e,
        last_newline_end(b, p, e) > 0 ==> util::newline(
            b[last_newline_end(b, p, e) - 1],
        ),
    decreases e - p,
{
    if e > p && !util::newline(b[e - 1]) {
        lemma_newline_in_run(b, p, e - 1);
    }
}

/// The position behind a newline of a text is a boundary.
pub(super) proof fn lemma_behind_newline(b: Seq<u8>, p: int, n: int)
    requires
        util::boundary(b, p),
        p < n <= b.len(),
        util::newline(b[n - 1]),
    ensures
        util::boundary(b, n),
    decreases n - p,
{
    util::lemma_after(b, p);
    let q = util::after(b, p);
    if q < n {
        lemma_behind_newline(b, q, n);
    } else if q > n {
        assert(vstd::utf8::is_continuation_byte(b[n - 1]) || n - 1 == p);
    }
}

/// A byte that folds to a lower-case letter is a letter of either case.
pub(super) proof fn lemma_fold(x: u8)
    by (bit_vector)
    ensures
        0x61 <= (x | 0x20) <= 0x7a ==> x < 0x80,
{
}

// ---- every rule ends at a boundary ----

/// Runs end at a boundary of the text.
pub(super) proof fn lemma_run_end<C: PretokConfig>(b: Seq<u8>, p: int, k: Class)
    requires
        util::boundary(b, p),
    ensures
        p <= run_end::<C>(b, p, k),
        util::boundary(b, run_end::<C>(b, p, k)),
        p < b.len() && member::<C>(b, p, k) ==> util::after(b, p) <= run_end::<C>(b, p, k),
    decreases b.len() - p,
{
    if p < b.len() {
        util::lemma_after(b, p);
        if member::<C>(b, p, k) {
            lemma_run_end::<C>(b, util::after(b, p), k);
        }
    }
}

pub(super) proof fn lemma_run_end_upto<C: PretokConfig>(b: Seq<u8>, p: int, k: Class, n: nat)
    requires
        util::boundary(b, p),
    ensures
        p <= run_end_upto::<C>(b, p, k, n),
        util::boundary(b, run_end_upto::<C>(b, p, k, n)),
    decreases n,
{
    if p < b.len() {
        util::lemma_after(b, p);
        if n > 0 && member::<C>(b, p, k) {
            lemma_run_end_upto::<C>(b, util::after(b, p), k, (n - 1) as nat);
        }
    }
}

pub(super) proof fn lemma_upper_then_lower_end<C: PretokConfig>(b: Seq<u8>, p: int)
    requires
        util::boundary(b, p),
    ensures
        p <= upper_then_lower_end::<C>(b, p),
        util::boundary(b, upper_then_lower_end::<C>(b, p)),
{
    lemma_run_end::<C>(b, p, Class::Upper);
    let q = run_end::<C>(b, p, Class::Upper);
    if q < b.len() {
        util::lemma_after(b, q);
        lemma_run_end::<C>(b, util::after(b, q), Class::Lower);
    }
}

proof fn lemma_word_ends<C: PretokConfig>(b: Seq<u8>, p: int)
    requires
        util::boundary(b, p),
    ensures
        forall|first: u8| p <= #[trigger] word_end::<C>(b, p, first),
        forall|first: u8| util::boundary(b, #[trigger] word_end::<C>(b, p, first)),
        forall|lower: bool| p <= #[trigger] camel_end::<C>(b, p, lower),
        forall|lower: bool| util::boundary(b, #[trigger] camel_end::<C>(b, p, lower)),
{
    lemma_upper_then_lower_end::<C>(b, p);
    lemma_run_end::<C>(b, p, Class::Lower);
    lemma_run_end::<C>(b, p, Class::Letter);
}

/// A contraction ends at a boundary.
pub(super) proof fn lemma_contraction<C: PretokConfig>(b: Seq<u8>, p: int)
    requires
        util::boundary(b, p),
    ensures
        0 <= contraction_len::<C>(b, p),
        util::boundary(b, p + contraction_len::<C>(b, p)),
        p <= with_suffix::<C>(b, p),
        util::boundary(b, with_suffix::<C>(b, p)),
        p <= with_contraction::<C>(b, p),
        util::boundary(b, with_contraction::<C>(b, p)),
{
    lemma_here(b, p);
    if contraction_len::<C>(b, p) > 0 {
        lemma_here(b, p + 1);
        lemma_fold(b[p + 1]);
        if b[p + 1] < 0x80 {
            lemma_here(b, p + 2);
            if p + 2 < b.len() {
                lemma_fold(b[p + 2]);
            }
        }
    }
}

proof fn lemma_prefixed_word_end<C: PretokConfig>(b: Seq<u8>, p: int)
    requires
        util::boundary(b, p),
        p < b.len(),
        b[p] < 0x80,
    ensures
        p < prefixed_word_end::<C>(b, p),
        util::boundary(b, prefixed_word_end::<C>(b, p)),
{
    lemma_here(b, p);
    lemma_run_end::<C>(b, p + 1, Class::AsciiLetter);
    lemma_word_ends::<C>(b, p + 1);
    assert(p + 1 <= word_end::<C>(b, p + 1, b[p]));
}

proof fn lemma_number_end<C: PretokConfig>(b: Seq<u8>, p: int)
    requires
        util::boundary(b, p),
    ensures
        p <= number_end::<C>(b, p),
        util::boundary(b, number_end::<C>(b, p)),
{
    lemma_run_end::<C>(b, p, Class::Number);
    lemma_run_end_upto::<C>(b, p, Class::Number, 2);
}

proof fn lemma_punct_end<C: PretokConfig>(b: Seq<u8>, p: int)
    requires
        util::boundary(b, p),
    ensures
        p <= punct_end::<C>(b, p),
        util::boundary(b, punct_end::<C>(b, p)),
{
    lemma_run_end::<C>(b, p, Class::Punct);
    lemma_run_end::<C>(b, run_end::<C>(b, p, Class::Punct), Class::Trailing);
}

/// The last character before a boundary starts at a boundary.
pub(crate) proof fn lemma_last_start_boundary(b: Seq<u8>, p: int, q: int, e: int)
    requires
        util::boundary(b, p),
        util::boundary(b, q),
        util::boundary(b, e),
        p <= q <= e,
        q < e || p == e,
    ensures
        p <= last_start(b, p, e),
        q < e ==> q <= last_start(b, p, e) < e,
        p == e ==> last_start(b, p, e) == p,
        p < e ==> util::boundary(b, last_start(b, p, e)),
    decreases e - q,
{
    if q < e {
        util::lemma_after(b, q);
        let n = util::after(b, q);
        if n < e {
            lemma_last_start_boundary(b, p, n, e);
        } else {
            if n > e {
                // A boundary inside a character would be a continuation byte.
                util::lemma_after(b, e);
                assert(vstd::utf8::is_continuation_byte(b[e]));
            }
            lemma_last_start(b, p, q, e);
        }
    }
}

proof fn lemma_space_end<C: PretokConfig>(b: Seq<u8>, p: int)
    requires
        util::boundary(b, p),
        p < b.len(),
        member::<C>(b, p, Class::Space),
    ensures
        p < space_end::<C>(b, p),
        util::boundary(b, space_end::<C>(b, p)),
{
    util::lemma_after(b, p);
    lemma_run_end::<C>(b, p, Class::Space);
    let e = run_end::<C>(b, p, Class::Space);
    lemma_last_start_boundary(b, p, p, e);
    lemma_newline_in_run(b, p, e);
    let n = last_newline_end(b, p, e);
    if n > 0 {
        lemma_behind_newline(b, p, n);
    }
}

proof fn lemma_prefixed_unicode_word_end<C: PretokConfig>(b: Seq<u8>, p: int)
    requires
        util::boundary(b, p),
        p < b.len(),
    ensures
        p <= prefixed_unicode_word_end::<C>(b, p),
        util::boundary(b, prefixed_unicode_word_end::<C>(b, p)),
{
    let c = util::char_at(b, p);
    util::lemma_after(b, p);
    lemma_word_ends::<C>(b, util::after(b, p));
    let lower = util::char_is_lowercase(c) || util::unicode_mark(c);
    lemma_contraction::<C>(b, camel_end::<C>(b, util::after(b, p), lower));
    lemma_run_end::<C>(b, p, Class::Letter);
    lemma_contraction::<C>(b, run_end::<C>(b, p, Class::Letter));
}

proof fn lemma_apostrophe_piece_end<C: PretokConfig>(b: Seq<u8>, p: int)
    requires
        util::boundary(b, p),
        p < b.len(),
        b[p] == 0x27,
    ensures
        p < apostrophe_piece_end::<C>(b, p),
        util::boundary(b, apostrophe_piece_end::<C>(b, p)),
{
    lemma_here(b, p);
    lemma_contraction::<C>(b, p);
    lemma_punct_end::<C>(b, p + 1);
    if p + 1 < b.len() {
        if b[p + 1] < 0x80 {
            lemma_prefixed_word_end::<C>(b, p + 1);
            lemma_contraction::<C>(b, prefixed_word_end::<C>(b, p + 1));
        }
        lemma_run_end::<C>(b, p + 1, Class::Letter);
        lemma_contraction::<C>(b, run_end::<C>(b, p + 1, Class::Letter));
    }
}

proof fn lemma_blank_piece_end<C: PretokConfig>(b: Seq<u8>, p: int)
    requires
        util::boundary(b, p),
        p < b.len(),
        util::blank(b[p]),
    ensures
        p < blank_piece_end::<C>(b, p),
        util::boundary(b, blank_piece_end::<C>(b, p)),
{
    lemma_here(b, p);
    lemma_space_end::<C>(b, p);
    lemma_punct_end::<C>(b, p + 1);
    if p + 1 < b.len() {
        util::lemma_after(b, p + 1);
        lemma_number_end::<C>(b, util::after(b, p + 1));
        lemma_prefixed_unicode_word_end::<C>(b, p + 1);
        lemma_word_ends::<C>(b, util::after(b, p + 1));
        lemma_contraction::<C>(b, word_end::<C>(b, util::after(b, p + 1), b[p + 1]));
    }
}

proof fn lemma_unicode_piece_end<C: PretokConfig>(b: Seq<u8>, p: int)
    requires
        util::boundary(b, p),
        p < b.len(),
        b[p] >= 0x80,
    ensures
        p < unicode_piece_end::<C>(b, p),
        util::boundary(b, unicode_piece_end::<C>(b, p)),
{
    let c = util::char_at(b, p);
    let q = util::after(b, p);
    util::lemma_after(b, p);
    lemma_word_ends::<C>(b, q);
    lemma_contraction::<C>(b, camel_end::<C>(b, q, util::char_is_lowercase(c)));
    lemma_run_end::<C>(b, q, Class::Letter);
    lemma_contraction::<C>(b, run_end::<C>(b, q, Class::Letter));
    lemma_run_end::<C>(b, q, Class::Lower);
    lemma_contraction::<C>(b, run_end::<C>(b, q, Class::Lower));
    lemma_number_end::<C>(b, q);
    lemma_punct_end::<C>(b, q);
    if util::char_is_whitespace(c) {
        lemma_space_end::<C>(b, p);
    }
    if q < b.len() {
        util::lemma_after(b, q);
        lemma_run_end::<C>(b, util::after(b, q), Class::Letter);
        lemma_contraction::<C>(b, run_end::<C>(b, util::after(b, q), Class::Letter));
        if b[q] < 0x80 {
            lemma_prefixed_word_end::<C>(b, q);
            lemma_contraction::<C>(b, prefixed_word_end::<C>(b, q));
        }
    }
}

proof fn lemma_ascii_punct_piece_end<C: PretokConfig>(b: Seq<u8>, p: int)
    requires
        util::boundary(b, p),
        p < b.len(),
        b[p] < 0x80,
    ensures
        p < ascii_punct_piece_end::<C>(b, p),
        util::boundary(b, ascii_punct_piece_end::<C>(b, p)),
{
    lemma_here(b, p);
    lemma_punct_end::<C>(b, p + 1);
    if p + 1 < b.len() {
        lemma_prefixed_unicode_word_end::<C>(b, p + 1);
        if b[p + 1] < 0x80 {
            lemma_prefixed_word_end::<C>(b, p + 1);
            lemma_contraction::<C>(b, prefixed_word_end::<C>(b, p + 1));
        }
    }
}

/// A piece that starts at a boundary inside the text is not empty and ends at
/// a boundary.
pub proof fn law_piece_end<C: PretokConfig>(b: Seq<u8>, p: int)
    requires
        util::boundary(b, p),
        p < b.len(),
    ensures
        p < piece_end::<C>(b, p) <= b.len(),
        util::boundary(b, piece_end::<C>(b, p)),
{
    lemma_here(b, p);
    if util::ascii_letter(b[p]) {
        lemma_word_ends::<C>(b, p + 1);
        lemma_contraction::<C>(b, word_end::<C>(b, p + 1, b[p]));
    } else if b[p] == 0x27 {
        lemma_apostrophe_piece_end::<C>(b, p);
    } else if util::ascii_digit(b[p]) {
        lemma_number_end::<C>(b, p + 1);
    } else if util::blank(b[p]) {
        lemma_blank_piece_end::<C>(b, p);
    } else if util::newline(b[p]) {
        lemma_space_end::<C>(b, p);
        lemma_run_end::<C>(b, p + 1, Class::Newline);
    } else if b[p] >= 0x80 {
        lemma_unicode_piece_end::<C>(b, p);
    } else {
        lemma_ascii_punct_piece_end::<C>(b, p);
    }
}

/// The bytes of the spans, one after another.
pub open spec fn joined(b: Seq<u8>, spans: Seq<(int, int)>) -> Seq<u8>
    decreases spans.len(),
{
    if spans.len() == 0 {
        seq![]
    } else {
        b.subrange(spans[0].0, spans[0].1) + joined(b, spans.drop_first())
    }
}

/// A text has one list of pieces: what the scalar scanner gives and what the
/// mask scanner gives, stepping or in one go, are the same texts.
pub proof fn law_one_list_of_pieces<C: PretokConfig>(x: Seq<&str>, y: Seq<&str>, b: Seq<u8>, p: int)
    requires
        are_pieces(x, b, spans::<C>(b, p)),
        are_pieces(y, b, spans::<C>(b, p)),
    ensures
        x.len() == y.len(),
        forall|i: int| 0 <= i < x.len() ==> (#[trigger] x[i])@ == y[i]@,
{
    assert forall|i: int| 0 <= i < x.len() implies (#[trigger] x[i])@ == y[i]@ by {
        assert(x[i].spec_bytes() == y[i].spec_bytes());
        vstd::utf8::encode_utf8_decode_utf8(x[i]@);
        vstd::utf8::encode_utf8_decode_utf8(y[i]@);
    }
}

/// The pieces of a text partition it: none is empty, each starts where the
/// one before it ends, and joined they give the text back.
pub proof fn law_pieces_partition<C: PretokConfig>(b: Seq<u8>, p: int)
    requires
        util::boundary(b, p),
    ensures
        joined(b, spans::<C>(b, p)) == util::tail(b, p),
        p < b.len() ==> spans::<C>(b, p).len() > 0 && spans::<C>(b, p)[0].0 == p,
        forall|i: int|
            0 <= i < spans::<C>(b, p).len() ==> {
                let s = #[trigger] spans::<C>(b, p)[i];
                &&& s.0 < s.1
                &&& util::boundary(b, s.0)
                &&& s.1 == if i + 1 < spans::<C>(b, p).len() {
                    spans::<C>(b, p)[i + 1].0
                } else {
                    b.len() as int
                }
            },
    decreases b.len() - p,
{
    let all = spans::<C>(b, p);
    if p < b.len() {
        law_piece_end::<C>(b, p);
        let e = piece_end::<C>(b, p);
        law_pieces_partition::<C>(b, e);
        let rest = spans::<C>(b, e);
        assert(all.drop_first() =~= rest);
        assert(joined(b, all) =~= util::tail(b, p));
        assert forall|i: int| 0 <= i < all.len() implies {
            let s = #[trigger] all[i];
            &&& s.0 < s.1
            &&& util::boundary(b, s.0)
            &&& s.1 == if i + 1 < all.len() {
                all[i + 1].0
            } else {
                b.len() as int
            }
        } by {
            if i > 0 {
                assert(all[i] == rest[i - 1]);
                if i + 1 < all.len() {
                    assert(all[i + 1] == rest[i]);
                }
            }
        }
    } else {
        assert(joined(b, all) =~= util::tail(b, p));
    }
}

} // verus!
