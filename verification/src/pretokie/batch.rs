//! Piece-start bits of a 64-byte batch.
use super::algebra;
use super::config::{
    ContractionMode, DigitMode, LetterMode, PretokConfig, PunctClass,
    PunctPrefixMode, PunctTrailing, WsException, WsPattern,
};
use super::joins;
use super::joins::{fold, form_of};
use super::rules;
use super::util;
use super::util::{is_ascii_letter, is_digit, is_lower};
use crate::bits;
use crate::bits::{digit_run_splits3, fill_right, leading_run};
use vstd::prelude::*;
use vstd::string::*;
use vstd::utf8::*;

verus! {

/// Pieces lead from `a` to `p`.
pub open spec fn leads<C: PretokConfig>(b: Seq<u8>, a: int, p: int) -> bool
    decreases p - a,
{
    a == p || (0 <= a < b.len() && a < rules::piece_end::<C>(b, a) <= p && leads::<C>(
        b,
        rules::piece_end::<C>(b, a),
        p,
    ))
}

/// A piece of the text starts at `p`, or the last one ends there.
pub open spec fn reached<C: PretokConfig>(b: Seq<u8>, p: int) -> bool {
    leads::<C>(b, 0, p)
}

proof fn lemma_leads_next<C: PretokConfig>(b: Seq<u8>, a: int, p: int)
    requires
        leads::<C>(b, a, p),
        0 <= a,
        p < b.len(),
        p < rules::piece_end::<C>(b, p),
    ensures
        leads::<C>(b, a, rules::piece_end::<C>(b, p)),
    decreases p - a,
{
    let e = rules::piece_end::<C>(b, p);
    if a < p {
        lemma_leads_next::<C>(b, rules::piece_end::<C>(b, a), p);
    } else {
        assert(leads::<C>(b, e, e));
    }
}

/// Where a piece starts, the next one starts behind it.
pub proof fn lemma_reached_next<C: PretokConfig>(b: Seq<u8>, p: int)
    requires
        reached::<C>(b, p),
        0 <= p < b.len(),
        util::boundary(b, p),
    ensures
        reached::<C>(b, rules::piece_end::<C>(b, p)),
{
    rules::law_piece_end::<C>(b, p);
    lemma_leads_next::<C>(b, 0, p);
}

/// The position `q` is marked in the mask of the batch at `base`.
pub open spec fn marked(m: u64, base: int, q: int) -> bool {
    bits::bit(m, q - base)
}

/// The characters around `j` tell whether a piece ends there.
pub open spec fn sure<C: PretokConfig>(b: Seq<u8>, j: int) -> bool {
    algebra::sure::<C>(joins::form::<C>(b), j)
}

/// From `p` up to `q` the characters around each position tell whether a piece
/// ends there.
pub open spec fn settled<C: PretokConfig>(b: Seq<u8>, p: int, q: int) -> bool {
    forall|j: int| p <= j < q ==> #[trigger] sure::<C>(b, j)
}

/// The piece from `p` on reaches up to `q`, a position of the batch at
/// `scan`, and no bad zone lies from it up to `q`.
pub open spec fn decided<C: PretokConfig>(b: Seq<u8>, scan: int, bad: u64, p: int, q: int) -> bool {
    &&& reached::<C>(b, p)
    &&& util::boundary(b, p)
    &&& 0 <= p < q
    &&& scan <= q < scan + 64
    &&& q <= rules::piece_end::<C>(b, p)
    &&& settled::<C>(b, p, scan)
    &&& forall|j: int| p <= j <= q && scan <= j ==> !#[trigger] marked(bad, scan, j)
}

/// The masks tell where pieces end, outside of bad zones.
pub open spec fn masks_sound<C: PretokConfig>(b: Seq<u8>, scan: int, usable: u64, bad: u64) -> bool {
    &&& usable & bad == 0
    &&& forall|p: int, q: int| #[trigger]
        decided::<C>(b, scan, bad, p, q) ==> marked(usable, scan, q) == (rules::piece_end::<C>(
            b,
            p,
        ) == q)
    &&& forall|j: int|
        scan <= j < scan + 64 && !#[trigger] marked(bad, scan, j) ==> sure::<C>(b, j)
}

/// In the batch at `scan`, `q` is left to the scalar scanner: the characters
/// around it do not tell, or it stands among digits that are counted in threes
/// from before the batch or from a non-ASCII character of no clear class.
pub open spec fn is_bad<C: PretokConfig>(text: Seq<u8>, scan: int, q: int) -> bool {
    let b = joins::form::<C>(text);
    form_bad::<C>(b, scan, q)
}

/// The same of the form of a text in which pieces are told.
pub open spec fn form_bad<C: PretokConfig>(b: Seq<u8>, scan: int, q: int) -> bool {
    let from = algebra::digit_start(b, q);
    ||| !algebra::sure::<C>(b, q)
    ||| C::DIGIT_MODE == DigitMode::Chunked3 && util::ascii_digit(b[q]) && (
    C::SPACE_PREFIXES_DIGITS || from < scan || (from > 0 && b[from - 1] >= 0x80))
}

// ---- classes of the bytes of a batch ----

/// The word with one more bit, where `yes`.
fn with_bit(x: u64, i: u64, yes: bool) -> (r: u64)
    requires
        i < 64,
    ensures
        forall|j: int|
            0 <= j < 64 ==> #[trigger] bits::bit(r, j) == (bits::bit(x, j) || (yes && j == i)),
{
    broadcast use bits::group_bits;

    if yes {
        proof {
            assert forall|j: int| 0 <= j < 64 implies #[trigger] bits::bit(x | (1u64 << i), j) == (
            bits::bit(x, j) || j == i) by {
                bits::lemma_ranges(i, j);
            }
        }
        x | (1u64 << i)
    } else {
        x
    }
}

/// One mask per byte predicate for a 64-byte batch (bit i = byte scan+i).
/// Whitespace is exactly {space, tab, \r, \n}.
#[derive(Clone, Copy)]
pub struct AsciiMasks {
    /// ASCII letters.
    pub l: u64,
    /// ASCII digits.
    pub d: u64,
    /// Space (0x20).
    pub s: u64,
    /// Tab (0x09).
    pub t: u64,
    /// Newlines: \r, \n.
    pub n: u64,
    /// Non-ASCII bytes (>= 0x80).
    pub hi: u64,
    /// Apostrophes.
    pub ap: u64,
    /// ASCII lowercase letters (only filled when `case_masks`).
    pub lo: u64,
    /// Forward slashes (only filled when `slash_mask`).
    pub slash: u64,
    /// Bytes < 0x21 or == 0x7F (only filled when `ctl_mask`).
    pub low_ctl: u64,
}

/// The bits of the masks for one byte.
pub open spec fn masks_at(
    m: AsciiMasks,
    j: int,
    x: u8,
    case_masks: bool,
    slash_mask: bool,
    ctl_mask: bool,
) -> bool {
    &&& bits::bit(m.l, j) == util::ascii_letter(x)
    &&& bits::bit(m.d, j) == util::ascii_digit(x)
    &&& bits::bit(m.s, j) == (x == 0x20)
    &&& bits::bit(m.t, j) == (x == 0x09)
    &&& bits::bit(m.n, j) == util::newline(x)
    &&& bits::bit(m.hi, j) == (x >= 0x80)
    &&& bits::bit(m.ap, j) == (x == 0x27)
    &&& bits::bit(m.lo, j) == (case_masks && util::ascii_lower(x))
    &&& bits::bit(m.slash, j) == (slash_mask && x == 0x2f)
    &&& bits::bit(m.low_ctl, j) == (ctl_mask && (x < 0x21 || x == 0x7f))
}

/// The masks have no bit at `j`.
spec fn clear_at(m: AsciiMasks, j: int) -> bool {
    &&& !bits::bit(m.l, j)
    &&& !bits::bit(m.d, j)
    &&& !bits::bit(m.s, j)
    &&& !bits::bit(m.t, j)
    &&& !bits::bit(m.n, j)
    &&& !bits::bit(m.hi, j)
    &&& !bits::bit(m.ap, j)
    &&& !bits::bit(m.lo, j)
    &&& !bits::bit(m.slash, j)
    &&& !bits::bit(m.low_ctl, j)
}

/// Classify `bytes[scan..scan+64]`.
pub fn ascii_masks(
    bytes: &[u8],
    scan: usize,
    case_masks: bool,
    slash_mask: bool,
    ctl_mask: bool,
) -> (r: AsciiMasks)
    requires
        scan + 64 <= bytes@.len(),
    ensures
        forall|j: int|
            0 <= j < 64 ==> #[trigger] masks_at(
                r,
                j,
                bytes@[scan + j],
                case_masks,
                slash_mask,
                ctl_mask,
            ),
{
    let n: usize = bytes.len();
    let mut m = AsciiMasks {
        l: 0,
        d: 0,
        s: 0,
        t: 0,
        n: 0,
        hi: 0,
        ap: 0,
        lo: 0,
        slash: 0,
        low_ctl: 0,
    };
    let mut i: usize = 0;
    proof {
        bits::lemma_zero(0);
    }
    while i < 64
        invariant
            i <= 64,
            n == bytes@.len(),
            scan + 64 <= n,
            forall|j: int| i <= j < 64 ==> #[trigger] clear_at(m, j),
            forall|j: int|
                0 <= j < i ==> #[trigger] masks_at(
                    m,
                    j,
                    bytes@[scan + j],
                    case_masks,
                    slash_mask,
                    ctl_mask,
                ),
        decreases 64 - i,
    {
        let x: u8 = bytes[scan + i];
        let k: u64 = i as u64;
        let ghost before = m;
        m = AsciiMasks {
            l: with_bit(m.l, k, is_ascii_letter(x)),
            d: with_bit(m.d, k, is_digit(x)),
            s: with_bit(m.s, k, x == 0x20),
            t: with_bit(m.t, k, x == 0x09),
            n: with_bit(m.n, k, x == 0x0d || x == 0x0a),
            hi: with_bit(m.hi, k, x >= 0x80),
            ap: with_bit(m.ap, k, x == 0x27),
            lo: with_bit(m.lo, k, case_masks && is_lower(x)),
            slash: with_bit(m.slash, k, slash_mask && x == 0x2f),
            low_ctl: with_bit(m.low_ctl, k, ctl_mask && (x < 0x21 || x == 0x7f)),
        };
        proof {
            assert forall|j: int| 0 <= j < i + 1 implies #[trigger] masks_at(
                m,
                j,
                bytes@[scan + j],
                case_masks,
                slash_mask,
                ctl_mask,
            ) by {
                if j < i {
                    assert(masks_at(
                        before,
                        j,
                        bytes@[scan + j],
                        case_masks,
                        slash_mask,
                        ctl_mask,
                    ));
                } else {
                    assert(clear_at(before, j));
                }
            }
            assert forall|j: int| i + 1 <= j < 64 implies #[trigger] clear_at(m, j) by {
                assert(clear_at(before, j));
            }
        }
        i = i + 1;
    }
    m
}

/// The masks of a batch, folded into one word.
pub fn classify_fold<C: PretokConfig>(bytes: &[u8], scan: usize) -> (r: u64)
    requires
        scan + 64 <= bytes@.len(),
    ensures
        forall|j: int|
            0 <= j < 64 ==> #[trigger] bits::bit(r, j) == folded::<C>(bytes@[scan + j]),
{
    broadcast use bits::group_bits;

    let camel = C::LETTER_MODE == LetterMode::CamelCase;
    let want_slash = C::PUNCT_TRAILING == PunctTrailing::NewlinesAndSlashes;
    let want_ctl = C::PUNCT_CLASS == PunctClass::PunctSymbolOnly;
    let m = ascii_masks(bytes, scan, camel, want_slash, want_ctl);
    let r: u64 = m.l ^ m.d ^ m.s ^ m.t ^ m.n ^ m.hi ^ m.ap ^ m.lo ^ m.slash ^ m.low_ctl;
    proof {
        assert forall|j: int| 0 <= j < 64 implies #[trigger] bits::bit(r, j) == folded::<C>(
            bytes@[scan + j],
        ) by {
            assert(masks_at(m, j, bytes@[scan + j], camel, want_slash, want_ctl));
        }
    }
    r
}

/// One of both, but not both.
pub open spec fn either(a: bool, b: bool) -> bool {
    a != b
}

/// Whether an odd number of the classes of a config hold of a byte.
pub open spec fn folded<C: PretokConfig>(x: u8) -> bool {
    let a = either(either(util::ascii_letter(x), util::ascii_digit(x)), x == 0x20);
    let b = either(either(either(a, x == 0x09), util::newline(x)), x >= 0x80);
    let camel = C::LETTER_MODE == LetterMode::CamelCase;
    let slash = C::PUNCT_TRAILING == PunctTrailing::NewlinesAndSlashes;
    let ctl = C::PUNCT_CLASS == PunctClass::PunctSymbolOnly;
    let c = either(either(b, x == 0x27), camel && util::ascii_lower(x));
    either(either(c, slash && x == 0x2f), ctl && (x < 0x21 || x == 0x7f))
}

// ---- the classes around each position ----

/// The bits one further up, with `carry` below them.
fn behind(x: u64, carry: bool) -> (r: u64)
    ensures
        forall|j: int|
            0 <= j < 64 ==> #[trigger] bits::bit(r, j) == (if j == 0 {
                carry
            } else {
                bits::bit(x, j - 1)
            }),
{
    broadcast use bits::group_bits;

    with_bit(x << 1, 0, carry)
}

/// The bits one further down, with `carry` above them.
fn ahead(x: u64, carry: bool) -> (r: u64)
    ensures
        forall|j: int|
            0 <= j < 64 ==> #[trigger] bits::bit(r, j) == (if j == 63 {
                carry
            } else {
                bits::bit(x, j + 1)
            }),
{
    broadcast use bits::group_bits;

    with_bit(x >> 1, 63, carry)
}

/// The classes of the bytes of a batch, of the bytes one and two before each,
/// and of the byte behind each.
struct Around {
    l: u64,
    d: u64,
    s: u64,
    n: u64,
    o: u64,
    hi: u64,
    plain: u64,
    ap: u64,
    lo: u64,
    slash: u64,
    l1: u64,
    d1: u64,
    s1: u64,
    n1: u64,
    o1: u64,
    hi1: u64,
    ap1: u64,
    lo1: u64,
    slash1: u64,
    l2: u64,
    d2: u64,
    s2: u64,
    n2: u64,
    o2: u64,
    slash2: u64,
    white_next: u64,
    digit_next: u64,
    high_next: u64,
    /// The first byte of the text.
    first: u64,
    /// The position behind the first byte of the text.
    second: u64,
    /// The positions inside contractions that are pieces.
    inside: u64,
    /// The positions behind such contractions.
    done: u64,
}

/// The bits of a byte.
spec fn here_ok<C: PretokConfig>(k: Around, j: int, x: u8) -> bool {
    &&& bits::bit(k.l, j) == util::ascii_letter(x)
    &&& bits::bit(k.d, j) == util::ascii_digit(x)
    &&& bits::bit(k.s, j) == util::blank(x)
    &&& bits::bit(k.n, j) == util::newline(x)
    &&& bits::bit(k.o, j) == rules::punct_byte::<C>(x)
    &&& bits::bit(k.hi, j) == (x >= 0x80)
    &&& bits::bit(k.plain, j) == algebra::plain_byte::<C>(x)
    &&& bits::bit(k.ap, j) == (x == 0x27)
    &&& bits::bit(k.lo, j) == util::ascii_lower(x)
    &&& bits::bit(k.slash, j) == (x == 0x2f)
}

/// The bits of a byte before a position; none where there is no such byte.
spec fn one_before_ok<C: PretokConfig>(k: Around, j: int, there: bool, x: u8) -> bool {
    &&& bits::bit(k.l1, j) == (there && util::ascii_letter(x))
    &&& bits::bit(k.d1, j) == (there && util::ascii_digit(x))
    &&& bits::bit(k.s1, j) == (there && util::blank(x))
    &&& bits::bit(k.n1, j) == (there && util::newline(x))
    &&& bits::bit(k.o1, j) == (there && rules::punct_byte::<C>(x))
    &&& bits::bit(k.hi1, j) == (there && x >= 0x80)
    &&& bits::bit(k.ap1, j) == (there && x == 0x27)
    &&& bits::bit(k.lo1, j) == (there && util::ascii_lower(x))
    &&& bits::bit(k.slash1, j) == (there && x == 0x2f)
}

spec fn two_before_ok<C: PretokConfig>(k: Around, j: int, there: bool, x: u8) -> bool {
    &&& bits::bit(k.l2, j) == (there && util::ascii_letter(x))
    &&& bits::bit(k.d2, j) == (there && util::ascii_digit(x))
    &&& bits::bit(k.s2, j) == (there && util::blank(x))
    &&& bits::bit(k.n2, j) == (there && util::newline(x))
    &&& bits::bit(k.o2, j) == (there && rules::punct_byte::<C>(x))
    &&& bits::bit(k.slash2, j) == (there && x == 0x2f)
}

/// The bits of the byte behind a position.
spec fn next_ok(k: Around, j: int, x: u8) -> bool {
    &&& bits::bit(k.white_next, j) == algebra::white(x)
    &&& bits::bit(k.digit_next, j) == util::ascii_digit(x)
    &&& bits::bit(k.high_next, j) == (x >= 0x80)
}

/// The bits of all bytes around the position `scan + j`.
spec fn around_ok<C: PretokConfig>(k: Around, b: Seq<u8>, scan: int, j: int) -> bool {
    &&& here_ok::<C>(k, j, b[scan + j])
    &&& one_before_ok::<C>(k, j, scan + j >= 1, b[scan + j - 1])
    &&& two_before_ok::<C>(k, j, scan + j >= 2, b[scan + j - 2])
    &&& next_ok(k, j, b[scan + j + 1])
    &&& bits::bit(k.first, j) == (scan + j == 0)
    &&& bits::bit(k.second, j) == (scan + j == 1)
    &&& bits::bit(k.inside, j) == algebra::in_contraction::<C>(b, scan + j)
    &&& bits::bit(k.done, j) == algebra::behind_contraction::<C>(b, scan + j)
}

/// Space or tab?
fn is_blank(x: u8) -> (r: bool)
    ensures
        r == util::blank(x),
{
    x == 0x20 || x == 0x09
}

/// Carriage return or line feed?
fn is_newline(x: u8) -> (r: bool)
    ensures
        r == util::newline(x),
{
    x == 0x0d || x == 0x0a
}

/// ASCII punctuation of the config?
fn is_punct_byte<C: PretokConfig>(x: u8) -> (r: bool)
    ensures
        r == rules::punct_byte::<C>(x),
{
    if C::PUNCT_CLASS == PunctClass::PunctSymbolOnly {
        (0x21 <= x && x <= 0x2f) || (0x3a <= x && x <= 0x40) || (0x5b <= x && x <= 0x60) || (0x7b
            <= x && x <= 0x7e)
    } else {
        x < 0x80 && !is_ascii_letter(x) && !is_digit(x) && !is_blank(x) && !is_newline(x)
    }
}

// ---- contractions ----

/// The length of the contraction that is a piece from `x` on, 0 where there is
/// none.
fn contraction_at<C: PretokConfig>(bytes: &[u8], x: usize) -> (n: usize)
    requires
        x + 2 < bytes@.len(),
    ensures
        n == algebra::contraction::<C>(bytes@, x as int),
{
    if C::LETTER_MODE == LetterMode::CamelCase || C::CONTRACTION_MODE != ContractionMode::Standalone
        || bytes[x] != 0x27 {
        return 0;
    }
    if x > 0 {
        let before: u8 = bytes[x - 1];
        if !is_ascii_letter(before) && !is_digit(before) && !is_newline(before) {
            return 0;
        }
    }
    let b1: u8 = fold::<C>(bytes[x + 1]);
    let b2: u8 = fold::<C>(bytes[x + 2]);
    if b1 == 0x73 || b1 == 0x74 || b1 == 0x64 || b1 == 0x6d {
        2
    } else if (b1 == 0x6c && b2 == 0x6c) || (b1 == 0x76 && b2 == 0x65) || (b1 == 0x72 && b2
        == 0x65) {
        3
    } else {
        0
    }
}

/// The positions of a batch inside contractions that are pieces, and those
/// behind such contractions, where `ap` are the apostrophes of the batch.
fn contractions<C: PretokConfig>(bytes: &[u8], scan: usize, ap: u64) -> (r: (u64, u64))
    requires
        scan + 64 < bytes@.len(),
        forall|j: int| 0 <= j < 64 ==> #[trigger] bits::bit(ap, j) == (bytes@[scan + j] == 0x27),
    ensures
        forall|j: int|
            0 <= j < 64 ==> #[trigger] bits::bit(r.0, j) == algebra::in_contraction::<C>(
                bytes@,
                scan + j,
            ),
        forall|j: int|
            0 <= j < 64 ==> #[trigger] bits::bit(r.1, j) == algebra::behind_contraction::<C>(
                bytes@,
                scan + j,
            ),
{
    broadcast use bits::group_bits;

    let (two, three) = contraction_starts::<C>(bytes, scan, ap);
    let c1: usize = if scan >= 1 {
        contraction_at::<C>(bytes, scan - 1)
    } else {
        0
    };
    let c2: usize = if scan >= 2 {
        contraction_at::<C>(bytes, scan - 2)
    } else {
        0
    };
    let c3: usize = if scan >= 3 {
        contraction_at::<C>(bytes, scan - 3)
    } else {
        0
    };
    let two1 = behind(two, c1 == 2);
    let three1 = behind(three, c1 == 3);
    let three2 = behind(three1, c2 == 3);
    let two2 = behind(two1, c2 == 2);
    let three3 = behind(three2, c3 == 3);
    proof {
        assert forall|j: int| 0 <= j < 64 implies #[trigger] bits::bit(two1 | three1 | three2, j)
            == algebra::in_contraction::<C>(bytes@, scan + j) by {}
        assert forall|j: int| 0 <= j < 64 implies #[trigger] bits::bit(two2 | three3, j)
            == algebra::behind_contraction::<C>(bytes@, scan + j) by {}
    }
    (two1 | three1 | three2, two2 | three3)
}

/// The positions at which contractions of two bytes start that are pieces, and
/// those of three bytes.
fn contraction_starts<C: PretokConfig>(bytes: &[u8], scan: usize, ap: u64) -> (r: (u64, u64))
    requires
        scan + 64 < bytes@.len(),
        forall|j: int| 0 <= j < 64 ==> #[trigger] bits::bit(ap, j) == (bytes@[scan + j] == 0x27),
    ensures
        forall|j: int|
            0 <= j < 63 ==> #[trigger] bits::bit(r.0, j) == (algebra::contraction::<C>(
                bytes@,
                scan + j,
            ) == 2),
        forall|j: int|
            0 <= j < 63 ==> #[trigger] bits::bit(r.1, j) == (algebra::contraction::<C>(
                bytes@,
                scan + j,
            ) == 3),
{
    broadcast use bits::group_bits;

    let len: usize = bytes.len();
    let mut cand: u64 = ap & 0x7fff_ffff_ffff_ffff;
    let mut two: u64 = 0;
    let mut three: u64 = 0;
    proof {
        bits::lemma_zero(0);
        assert forall|j: int| 0 <= j < 64 implies #[trigger] bits::bit(cand, j) == (bits::bit(ap, j)
            && j < 63) by {
            lemma_not_last(j);
        }
    }
    while cand != 0
        invariant
            scan + 64 < bytes@.len(),
            len == bytes@.len(),
            forall|j: int|
                0 <= j < 64 && #[trigger] bits::bit(cand, j) ==> j < 63 && !bits::bit(two, j)
                    && !bits::bit(three, j),
            forall|j: int|
                0 <= j < 63 ==> bits::bit(cand, j) || #[trigger] bits::bit(two, j) == (
                algebra::contraction::<C>(bytes@, scan + j) == 2),
            forall|j: int|
                0 <= j < 63 ==> bits::bit(cand, j) || #[trigger] bits::bit(three, j) == (
                algebra::contraction::<C>(bytes@, scan + j) == 3),
        decreases cand,
    {
        let i: u64 = cand.trailing_zeros() as u64;
        proof {
            bits::lemma_lowest(cand);
            assert(bits::bit(cand, i as int));
        }
        let n: usize = contraction_at::<C>(bytes, scan + i as usize);
        two = with_bit(two, i, n == 2);
        three = with_bit(three, i, n == 3);
        assert(cand & ((cand - 1) as u64) < cand) by (bit_vector)
            requires
                cand != 0,
        ;
        cand = cand & (cand - 1);
    }
    (two, three)
}

/// All bits but the last are set.
proof fn lemma_not_last(j: int)
    requires
        0 <= j < 64,
    ensures
        bits::bit(0x7fff_ffff_ffff_ffffu64, j) == (j < 63),
{
    let i = j as u64;
    assert(i < 64 ==> ((0x7fff_ffff_ffff_ffffu64 >> i) & 1 == 1 <==> i < 63)) by (bit_vector);
}

/// Classify the bytes of a batch and those around them.
#[verifier::rlimit(60)]
fn around<C: PretokConfig>(bytes: &[u8], scan: usize) -> (k: Around)
    requires
        scan + 64 < bytes@.len(),
    ensures
        forall|j: int| 0 <= j < 64 ==> #[trigger] around_ok::<C>(k, bytes@, scan as int, j),
{
    broadcast use bits::group_bits;

    let n: usize = bytes.len();
    let ctl = C::PUNCT_CLASS == PunctClass::PunctSymbolOnly;
    let m = ascii_masks(bytes, scan, true, true, ctl);
    let has1 = scan >= 1;
    let has2 = scan >= 2;
    let x1: u8 = if has1 {
        bytes[scan - 1]
    } else {
        0
    };
    let x2: u8 = if has2 {
        bytes[scan - 2]
    } else {
        0
    };
    let y: u8 = bytes[scan + 64];
    let s: u64 = m.s | m.t;
    let white: u64 = s | m.n;
    let o: u64 = !(m.l | m.d | white | m.hi | m.low_ctl);
    let l1 = behind(m.l, has1 && is_ascii_letter(x1));
    let d1 = behind(m.d, has1 && is_digit(x1));
    let s1 = behind(s, has1 && is_blank(x1));
    let n1 = behind(m.n, has1 && is_newline(x1));
    let o1 = behind(o, has1 && is_punct_byte::<C>(x1));
    let slash1 = behind(m.slash, has1 && x1 == 0x2f);
    proof {
        assert forall|j: int| 0 <= j < 64 implies #[trigger] bits::bit(m.ap, j) == (bytes@[scan + j]
            == 0x27) by {
            assert(masks_at(m, j, bytes@[scan + j], true, true, ctl));
        }
    }
    let (inside, done) = contractions::<C>(bytes, scan, m.ap);
    let k = Around {
        l: m.l,
        d: m.d,
        s,
        n: m.n,
        o,
        hi: m.hi,
        plain: m.l | m.d | white | (o & !m.ap),
        ap: m.ap,
        lo: m.lo,
        slash: m.slash,
        l1,
        d1,
        s1,
        n1,
        o1,
        hi1: behind(m.hi, has1 && x1 >= 0x80),
        ap1: behind(m.ap, has1 && x1 == 0x27),
        lo1: behind(m.lo, has1 && is_lower(x1)),
        slash1,
        l2: behind(l1, has2 && is_ascii_letter(x2)),
        d2: behind(d1, has2 && is_digit(x2)),
        s2: behind(s1, has2 && is_blank(x2)),
        n2: behind(n1, has2 && is_newline(x2)),
        o2: behind(o1, has2 && is_punct_byte::<C>(x2)),
        slash2: behind(slash1, has2 && x2 == 0x2f),
        white_next: ahead(white, is_blank(y) || is_newline(y)),
        digit_next: ahead(m.d, is_digit(y)),
        high_next: ahead(m.hi, y >= 0x80),
        first: with_bit(0, 0, scan == 0),
        second: with_bit(with_bit(0, 1, scan == 0), 0, scan == 1),
        inside,
        done,
    };
    proof {
        assert forall|j: int| 0 <= j < 64 implies #[trigger] around_ok::<C>(
            k,
            bytes@,
            scan as int,
            j,
        ) by {
            let b = bytes@;
            bits::lemma_constants(j);
            assert(masks_at(m, j, b[scan + j], true, true, ctl));
            if j >= 1 {
                assert(masks_at(m, j - 1, b[scan + (j - 1)], true, true, ctl));
            }
            if j >= 2 {
                assert(masks_at(m, j - 2, b[scan + (j - 2)], true, true, ctl));
            }
            if j < 63 {
                assert(masks_at(m, j + 1, b[scan + (j + 1)], true, true, ctl));
            }
        }
    }
    k
}

// ---- where pieces end ----

/// The character at a position goes along with punctuation or a blank.
spec fn along_at<C: PretokConfig>(k: Around, j: int) -> bool {
    bits::bit(k.s1, j) || (bits::bit(k.o1, j) && !(C::PUNCT_TRAILING
        == PunctTrailing::NewlinesAndSlashes && bits::bit(k.slash1, j)))
}

/// The apostrophe at a position starts a piece.
spec fn fresh_at<C: PretokConfig>(k: Around, j: int) -> bool {
    algebra::apostrophes_told::<C>() && (bits::bit(k.first, j) || bits::bit(k.l1, j) || bits::bit(
        k.d1,
        j,
    ) || bits::bit(k.n1, j))
}

/// The apostrophes that the algebra decides by.
fn told<C: PretokConfig>(k: &Around) -> (r: u64)
    ensures
        forall|j: int|
            0 <= j < 64 ==> #[trigger] bits::bit(r, j) == (bits::bit(k.ap, j) && (along_at::<C>(
                *k,
                j,
            ) || fresh_at::<C>(*k, j))),
{
    broadcast use bits::group_bits;

    let marks: u64 = if C::PUNCT_TRAILING == PunctTrailing::NewlinesAndSlashes {
        k.o1 & !k.slash1
    } else {
        k.o1
    };
    if C::LETTER_MODE != LetterMode::CamelCase && C::CONTRACTION_MODE != ContractionMode::Suffix {
        k.ap & (k.s1 | marks | k.first | k.l1 | k.d1 | k.n1)
    } else {
        k.ap & (k.s1 | marks)
    }
}

/// The punctuation character before a position starts a piece.
spec fn afresh_at<C: PretokConfig>(k: Around, j: int) -> bool {
    bits::bit(k.second, j) || bits::bit(k.l2, j) || bits::bit(k.d2, j) || (bits::bit(k.n2, j) && !(
    C::PUNCT_TRAILING == PunctTrailing::NewlinesAndSlashes && bits::bit(k.slash1, j)))
}

fn afresh<C: PretokConfig>(k: &Around) -> (r: u64)
    ensures
        forall|j: int| 0 <= j < 64 ==> #[trigger] bits::bit(r, j) == afresh_at::<C>(*k, j),
{
    broadcast use bits::group_bits;

    let lines: u64 = if C::PUNCT_TRAILING == PunctTrailing::NewlinesAndSlashes {
        k.n2 & !k.slash1
    } else {
        k.n2
    };
    k.second | k.l2 | k.d2 | lines
}

/// A piece ends at the position, by the classes around it.
spec fn ends_at<C: PretokConfig>(k: Around, j: int) -> bool {
    bits::bit(k.done, j) || (ends_plain_at::<C>(k, j) && !bits::bit(k.inside, j))
}

/// A piece ends at the position, by the classes around it, contractions aside.
spec fn ends_plain_at<C: PretokConfig>(k: Around, j: int) -> bool {
    let white = bits::bit(k.s, j) || bits::bit(k.n, j);
    ||| bits::bit(k.l1, j) && !bits::bit(k.l, j)
    ||| C::LETTER_MODE == LetterMode::CamelCase && bits::bit(k.lo1, j) && bits::bit(k.l, j)
        && !bits::bit(k.lo, j)
    ||| bits::bit(k.d1, j) && match C::DIGIT_MODE {
        DigitMode::Unlimited => !bits::bit(k.d, j),
        DigitMode::Single => true,
        DigitMode::Chunked3 => !bits::bit(k.d, j) || bits::splits3(k.d, j),
    }
    ||| (bits::bit(k.s1, j) || bits::bit(k.n1, j)) && white && !bits::bit(k.white_next, j) && !(
    C::WS_PATTERN == WsPattern::Cl100k && bits::bit(k.n1, j) && bits::bit(k.n, j)) && !(
    algebra::whole_before_digit::<C>() && bits::bit(k.digit_next, j))
    ||| bits::bit(k.n1, j) && !white
    ||| !C::SPACE_PREFIXES_DIGITS && bits::bit(k.s1, j) && bits::bit(k.d, j)
    ||| bits::bit(k.o1, j) && !bits::bit(k.o, j) && !(C::PUNCT_TRAILING != PunctTrailing::Absent
        && bits::bit(k.n, j)) && !((C::PUNCT_PREFIX_MODE != PunctPrefixMode::SpaceOnly || bits::bit(
        k.ap1,
        j,
    )) && bits::bit(k.l, j) && afresh_at::<C>(k, j))
}

/// The positions at which a piece ends.
fn ends<C: PretokConfig>(k: &Around) -> (r: u64)
    ensures
        forall|j: int| 0 <= j < 64 ==> #[trigger] bits::bit(r, j) == ends_at::<C>(*k, j),
{
    broadcast use bits::group_bits;

    let white: u64 = k.s | k.n;
    let mut letters: u64 = k.l1 & !k.l;
    if C::LETTER_MODE == LetterMode::CamelCase {
        letters = letters | (k.lo1 & k.l & !k.lo);
    }
    let digits: u64 = match C::DIGIT_MODE {
        DigitMode::Unlimited => k.d1 & !k.d,
        DigitMode::Single => k.d1,
        DigitMode::Chunked3 => k.d1 & (!k.d | digit_run_splits3(k.d)),
    };
    let mut split: u64 = (k.s1 | k.n1) & white & !k.white_next;
    if C::WS_PATTERN == WsPattern::Cl100k {
        split = split & !(k.n1 & k.n);
    }
    let whole = (C::WS_EXCEPTION == WsException::Digits && C::WS_PATTERN == WsPattern::Gpt2) || (
    C::WS_EXCEPTION == WsException::Cjk && C::WS_PATTERN == WsPattern::Cl100k);
    if whole {
        split = split & !k.digit_next;
    }
    let mut spaces: u64 = split | (k.n1 & !white);
    if !C::SPACE_PREFIXES_DIGITS {
        spaces = spaces | (k.s1 & k.d);
    }
    let mut marks: u64 = k.o1 & !k.o;
    if C::PUNCT_TRAILING != PunctTrailing::Absent {
        marks = marks & !k.n;
    }
    let prefixed: u64 = k.l & afresh::<C>(k);
    if C::PUNCT_PREFIX_MODE != PunctPrefixMode::SpaceOnly {
        marks = marks & !prefixed;
    } else {
        marks = marks & !(prefixed & k.ap1);
    }
    k.done | ((letters | digits | spaces | marks) & !k.inside)
}

/// The classes around a position do not tell, but for digits in threes.
spec fn doubtful_at<C: PretokConfig>(k: Around, j: int) -> bool {
    let white = bits::bit(k.s, j) || bits::bit(k.n, j);
    let cl = C::WS_PATTERN == WsPattern::Cl100k;
    let slashes = C::PUNCT_TRAILING == PunctTrailing::NewlinesAndSlashes;
    ||| !bits::bit(k.plain, j) && !(bits::bit(k.ap, j) && (along_at::<C>(k, j) || fresh_at::<C>(
        k,
        j,
    )))
    ||| cl && ((bits::bit(k.s1, j) && bits::bit(k.n, j)) || (bits::bit(k.n1, j) && bits::bit(
        k.s,
        j,
    )))
    ||| slashes && bits::bit(k.n1, j) && bits::bit(k.slash, j)
    ||| C::PUNCT_TRAILING != PunctTrailing::Absent && C::WS_PATTERN == WsPattern::Gpt2
        && bits::bit(k.n1, j)
    ||| (bits::bit(k.s1, j) || bits::bit(k.n1, j)) && white && !(cl && bits::bit(k.n, j))
        && bits::bit(k.high_next, j)
    ||| C::PUNCT_PREFIX_MODE != PunctPrefixMode::SpaceOnly && bits::bit(k.o1, j) && bits::bit(
        k.l,
        j,
    ) && !afresh_at::<C>(k, j) && !(bits::bit(k.s2, j) || (bits::bit(k.o2, j) && !(slashes
        && bits::bit(k.slash2, j))))
    ||| C::LETTER_MODE == LetterMode::CamelCase && C::PUNCT_PREFIX_MODE
        == PunctPrefixMode::AsciiOnly && bits::bit(k.lo1, j) && bits::bit(k.l, j) && !bits::bit(
        k.lo,
        j,
    )
    ||| C::SPACE_PREFIXES_DIGITS && C::WS_EXCEPTION != WsException::Absent && bits::bit(k.s1, j)
        && bits::bit(k.d, j)
}

/// The positions that the classes around them do not tell of, but for digits
/// in threes.
fn doubts<C: PretokConfig>(k: &Around) -> (r: u64)
    ensures
        forall|j: int| 0 <= j < 64 ==> #[trigger] bits::bit(r, j) == doubtful_at::<C>(*k, j),
{
    broadcast use bits::group_bits;

    let white: u64 = k.s | k.n;
    let white1: u64 = k.s1 | k.n1;
    let slashes = C::PUNCT_TRAILING == PunctTrailing::NewlinesAndSlashes;
    let mut bad: u64 = !(k.plain | told::<C>(k));
    let mut open: u64 = white1 & white & k.high_next;
    if C::WS_PATTERN == WsPattern::Cl100k {
        bad = bad | (k.s1 & k.n) | (k.n1 & k.s);
        open = open & !k.n;
    } else if C::PUNCT_TRAILING != PunctTrailing::Absent {
        bad = bad | k.n1;
    }
    bad = bad | open;
    if slashes {
        bad = bad | (k.n1 & k.slash);
    }
    if C::PUNCT_PREFIX_MODE != PunctPrefixMode::SpaceOnly {
        let along: u64 = if slashes {
            k.s2 | (k.o2 & !k.slash2)
        } else {
            k.s2 | k.o2
        };
        bad = bad | (k.o1 & k.l & !afresh::<C>(k) & !along);
    }
    if C::LETTER_MODE == LetterMode::CamelCase && C::PUNCT_PREFIX_MODE
        == PunctPrefixMode::AsciiOnly {
        bad = bad | (k.lo1 & k.l & !k.lo);
    }
    if C::SPACE_PREFIXES_DIGITS && C::WS_EXCEPTION != WsException::Absent {
        bad = bad | (k.s1 & k.d);
    }
    bad
}

/// Digits in threes that are counted from an unknown start.
fn digit_doubts<C: PretokConfig>(k: &Around) -> (r: u64)
    ensures
        C::DIGIT_MODE == DigitMode::Chunked3 ==> forall|j: int|
            0 <= j < 64 ==> #[trigger] bits::bit(r, j) == if C::SPACE_PREFIXES_DIGITS {
                bits::bit(k.d, j)
            } else {
                ||| bits::bit(k.d1, 0) && bits::all_set(k.d, 0, j)
                ||| bits::filled_right(k.hi1, k.d, j)
            },
{
    broadcast use bits::group_bits;

    if C::SPACE_PREFIXES_DIGITS {
        return k.d;
    }
    let from_high = fill_right(k.hi1, k.d);
    proof {
        bits::lemma_first(k.d1);
    }
    if k.d1 & 1 != 0 {
        from_high | leading_run(k.d)
    } else {
        from_high
    }
}

/// Where all is bad, nothing is claimed.
proof fn lemma_all_bad<C: PretokConfig>(b: Seq<u8>, scan: int)
    ensures
        masks_sound::<C>(b, scan, 0, u64::MAX),
{
    assert(0u64 & u64::MAX == 0) by (bit_vector);
    assert forall|j: int| scan <= j < scan + 64 implies #[trigger] marked(u64::MAX, scan, j) by {
        bits::lemma_constants(j - scan);
    }
    assert forall|p: int, q: int| !#[trigger] decided::<C>(b, scan, u64::MAX, p, q) by {
        if decided::<C>(b, scan, u64::MAX, p, q) {
            assert(!marked(u64::MAX, scan, q));
        }
    }
}

/// The digits before a position of a batch, as bits and as bytes.
proof fn lemma_digits<C: PretokConfig>(k: Around, b: Seq<u8>, scan: int, j: int)
    requires
        0 <= scan,
        scan + 64 < b.len(),
        forall|i: int| 0 <= i < 64 ==> #[trigger] around_ok::<C>(k, b, scan, i),
        0 <= j < 64,
    ensures
        ({
            let r = bits::run_start(k.d, j);
            &&& 0 <= r <= j
            &&& forall|i: int| r <= i < j ==> #[trigger] bits::bit(k.d, i)
            &&& r > 0 ==> algebra::digit_start(b, scan + j) == scan + r
            &&& r == 0 ==> algebra::digit_start(b, scan + j) == algebra::digit_start(b, scan)
        }),
    decreases j,
{
    if j > 0 {
        assert(around_ok::<C>(k, b, scan, j - 1));
        if bits::bit(k.d, j - 1) {
            lemma_digits::<C>(k, b, scan, j - 1);
        }
    }
}

/// Digits in threes are in doubt, as bits.
spec fn digits_doubtful<C: PretokConfig>(k: Around, j: int) -> bool {
    C::DIGIT_MODE == DigitMode::Chunked3 && if C::SPACE_PREFIXES_DIGITS {
        bits::bit(k.d, j)
    } else {
        ||| bits::bit(k.d1, 0) && bits::all_set(k.d, 0, j)
        ||| bits::filled_right(k.hi1, k.d, j)
    }
}

/// Digits in threes are in doubt, as bytes.
proof fn lemma_digits_doubtful<C: PretokConfig>(k: Around, b: Seq<u8>, scan: int, j: int)
    requires
        0 <= scan,
        scan + 64 < b.len(),
        forall|i: int| 0 <= i < 64 ==> #[trigger] around_ok::<C>(k, b, scan, i),
        0 <= j < 64,
        C::DIGIT_MODE == DigitMode::Chunked3,
        !C::SPACE_PREFIXES_DIGITS,
    ensures
        ({
            let from = algebra::digit_start(b, scan + j);
            digits_doubtful::<C>(k, j) <==> util::ascii_digit(b[scan + j]) && (from < scan || (from
                > 0 && b[from - 1] >= 0x80))
        }),
{
    let q = scan + j;
    let from = algebra::digit_start(b, q);
    let r = bits::run_start(k.d, j);
    assert(around_ok::<C>(k, b, scan, j));
    assert(around_ok::<C>(k, b, scan, 0));
    lemma_digits::<C>(k, b, scan, j);
    assert(around_ok::<C>(k, b, scan, r));
    algebra::lemma_digit_start(b, scan);
    if util::ascii_digit(b[q]) {
        assert forall|i: int| r <= i <= j implies #[trigger] bits::bit(k.d, i) by {}
        assert(bits::all_set(k.d, r, j));
        if bits::bit(k.hi1, r) {
            assert(bits::filled_right(k.hi1, k.d, j));
        }
        if bits::bit(k.d1, 0) && bits::all_set(k.d, 0, j) {
            if r > 0 {
                bits::lemma_run_start_stops(k.d, j);
                assert(bits::bit(k.d, r - 1));
            }
        }
    }
    if bits::filled_right(k.hi1, k.d, j) {
        let i = choose|i: int| 0 <= i <= j && #[trigger] bits::bit(k.hi1, i) && bits::all_set(
            k.d,
            i,
            j,
        );
        assert(bits::bit(k.d, j));
        assert(around_ok::<C>(k, b, scan, i));
        if r < i {
            assert(bits::bit(k.d, i - 1));
            assert(around_ok::<C>(k, b, scan, i - 1));
        } else if r > i {
            bits::lemma_run_start_stops(k.d, j);
            assert(bits::bit(k.d, r - 1));
        }
        assert(r == i);
    }
    if bits::bit(k.d1, 0) && bits::all_set(k.d, 0, j) {
        assert(bits::bit(k.d, j));
    }
}

/// The bits of a batch say which positions are bad, and where pieces end.
proof fn lemma_bits_say<C: PretokConfig>(k: Around, b: Seq<u8>, scan: int, j: int)
    requires
        0 <= scan,
        scan + 64 < b.len(),
        forall|i: int| 0 <= i < 64 ==> #[trigger] around_ok::<C>(k, b, scan, i),
        0 <= j < 64,
    ensures
        doubtful_at::<C>(k, j) || digits_doubtful::<C>(k, j) <==> form_bad::<C>(b, scan, scan + j),
        !form_bad::<C>(b, scan, scan + j) ==> (ends_at::<C>(k, j) <==> algebra::ends_here::<C>(
            b,
            scan + j,
        )),
{
    let q = scan + j;
    assert(around_ok::<C>(k, b, scan, j));
    if C::DIGIT_MODE == DigitMode::Chunked3 && !C::SPACE_PREFIXES_DIGITS {
        lemma_digits_doubtful::<C>(k, b, scan, j);
        lemma_digits::<C>(k, b, scan, j);
        algebra::lemma_digit_start(b, scan);
    }
}

/// Masks of the positions that are bad, and of those where pieces end, are
/// sound.
proof fn lemma_masks_sound<C: PretokConfig>(b: Seq<u8>, scan: int, usable: u64, bad: u64)
    requires
        valid_utf8(b),
        0 <= scan,
        scan + 64 < b.len(),
        forall|j: int|
            0 <= j < 64 ==> #[trigger] bits::bit(bad, j) == is_bad::<C>(b, scan, scan + j),
        forall|j: int|
            0 <= j < 64 ==> #[trigger] bits::bit(usable, j) == (!is_bad::<C>(b, scan, scan + j)
                && algebra::ends_here::<C>(joins::form::<C>(b), scan + j)),
    ensures
        masks_sound::<C>(b, scan, usable, bad),
{
    broadcast use bits::group_bits;

    bits::lemma_zero(usable & bad);
    assert forall|j: int| 0 <= j < 64 implies !bits::bit(usable & bad, j) by {
        assert(bits::bit(bad, j) == is_bad::<C>(b, scan, scan + j));
    }
    assert forall|q: int| scan <= q < scan + 64 && !#[trigger] marked(
        bad,
        scan,
        q,
    ) implies sure::<C>(b, q) by {
        assert(bits::bit(bad, q - scan) == is_bad::<C>(b, scan, scan + (q - scan)));
    }
    assert forall|p: int, q: int| #[trigger] decided::<C>(b, scan, bad, p, q) implies marked(
        usable,
        scan,
        q,
    ) == (rules::piece_end::<C>(b, p) == q) by {
        assert(!marked(bad, scan, q));
        assert(bits::bit(bad, q - scan) == is_bad::<C>(b, scan, scan + (q - scan)));
        let v = joins::form::<C>(b);
        assert forall|i: int| p <= i <= q implies #[trigger] algebra::sure::<C>(v, i) by {
            if i >= scan {
                assert(!marked(bad, scan, i));
            } else {
                assert(sure::<C>(b, i));
            }
        }
        joins::law_form_pieces::<C>(b, p);
        algebra::lemma_ends_here::<C>(v, p, q);
    }
}

/// The classes around a position of a batch show in a window of the text.
proof fn lemma_window<C: PretokConfig>(
    k: Around,
    v: Seq<u8>,
    w: Seq<u8>,
    scan: int,
    off: int,
    j: int,
)
    requires
        0 <= scan,
        scan + 64 < v.len(),
        off == if scan < 4 {
            scan
        } else {
            4
        },
        w == v.subrange(scan - off, scan + 65),
        0 <= j < 64,
        around_ok::<C>(k, w, off, j),
    ensures
        around_ok::<C>(k, v, scan, j),
{
    let d = scan - off;
    assert forall|x: int| off - 3 <= x < off + 63 implies #[trigger] algebra::contraction::<C>(w, x)
        == algebra::contraction::<C>(v, d + x) by {
        assert(x >= 0 ==> w[x] == v[d + x] && w[x + 1] == v[d + x + 1] && w[x + 2] == v[d + x + 2]);
        assert(x >= 1 ==> w[x - 1] == v[d + x - 1]);
    }
    assert(w[off + j] == v[scan + j]);
    assert(off + j >= 1 ==> w[off + j - 1] == v[scan + j - 1]);
    assert(off + j >= 2 ==> w[off + j - 2] == v[scan + j - 2]);
    assert(w[off + j + 1] == v[scan + j + 1]);
    assert(algebra::contraction::<C>(w, off + j - 1) == algebra::contraction::<C>(
        v,
        scan + j - 1,
    ));
    assert(algebra::contraction::<C>(w, off + j - 2) == algebra::contraction::<C>(
        v,
        scan + j - 2,
    ));
    assert(algebra::contraction::<C>(w, off + j - 3) == algebra::contraction::<C>(
        v,
        scan + j - 3,
    ));
}

/// Piece-start (`usable`) and scalar-territory (`bad`) bitmasks for the 64
/// bytes at `scan`. Bit k of `usable` = a trustworthy piece start at
/// `scan + k`; `bad` marks bytes whose boundaries `Core` derives, and no piece
/// is emitted across an unresolved bad zone.
///
/// The byte behind the batch is looked at: where there is none, no byte of the
/// batch is usable and all are bad.
pub fn batch_masks<C: PretokConfig>(text: &str, scan: usize) -> (r: (u64, u64))
    ensures
        scan + 64 <= text.spec_bytes().len() ==> masks_sound::<C>(
            text.spec_bytes(),
            scan as int,
            r.0,
            r.1,
        ),
        scan + 64 >= text.spec_bytes().len() ==> r == (0u64, u64::MAX),
        scan + 64 < text.spec_bytes().len() ==> forall|j: int|
            0 <= j < 64 ==> #[trigger] bits::bit(r.1, j) == is_bad::<C>(
                text.spec_bytes(),
                scan as int,
                scan + j,
            ),
        scan + 64 < text.spec_bytes().len() ==> forall|j: int|
            0 <= j < 64 ==> #[trigger] bits::bit(r.0, j) == (!is_bad::<C>(
                text.spec_bytes(),
                scan as int,
                scan + j,
            ) && algebra::ends_here::<C>(joins::form::<C>(text.spec_bytes()), scan + j)),
{
    broadcast use bits::group_bits;

    let bytes = text.as_bytes();
    let n: usize = bytes.len();
    if n <= scan || n - scan < 65 {
        proof {
            if scan + 64 == n {
                lemma_all_bad::<C>(text.spec_bytes(), scan as int);
            }
        }
        return (0, u64::MAX);
    }
    let off: usize = if scan < 4 {
        scan
    } else {
        4
    };
    proof {
        encode_utf8_valid_utf8(text@);
    }
    let window = form_of::<C>(bytes, scan - off, scan + 65);
    let k = around::<C>(window.as_slice(), off);
    let mut bad: u64 = doubts::<C>(&k);
    if C::DIGIT_MODE == DigitMode::Chunked3 {
        bad = bad | digit_doubts::<C>(&k);
    }
    let usable: u64 = ends::<C>(&k) & !bad;
    proof {
        let b = text.spec_bytes();
        let v = joins::form::<C>(b);
        assert forall|j: int| 0 <= j < 64 implies #[trigger] around_ok::<C>(
            k,
            v,
            scan as int,
            j,
        ) by {
            lemma_window::<C>(k, v, window@, scan as int, off as int, j);
        }
        assert forall|j: int| 0 <= j < 64 implies #[trigger] bits::bit(bad, j) == is_bad::<C>(
            b,
            scan as int,
            scan + j,
        ) by {
            lemma_bits_say::<C>(k, v, scan as int, j);
        }
        assert forall|j: int| 0 <= j < 64 implies #[trigger] bits::bit(usable, j) == (!is_bad::<
            C,
        >(b, scan as int, scan + j) && algebra::ends_here::<C>(v, scan + j)) by {
            assert(bits::bit(bad, j) == is_bad::<C>(b, scan as int, scan + j));
            lemma_bits_say::<C>(k, v, scan as int, j);
        }
        lemma_masks_sound::<C>(b, scan as int, usable, bad);
    }
    (usable, bad)
}

} // verus!
