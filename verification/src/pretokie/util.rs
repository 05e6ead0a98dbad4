//! Byte and character classes, and UTF-8 decoding at a position of a text.
//!
//! A text is its UTF-8 byte sequence. A position is a *boundary* of the text
//! when the bytes from there on are themselves valid UTF-8: it is the start
//! of a character, or the end of the text.
use vstd::prelude::*;
use vstd::utf8::*;

verus! {

// ---- Unicode properties of characters ----

/// `char::is_alphabetic`: the Unicode property *Alphabetic*.
pub uninterp spec fn char_is_alphabetic(c: char) -> bool;

/// `char::is_lowercase`: the Unicode property *Lowercase*.
pub uninterp spec fn char_is_lowercase(c: char) -> bool;

/// `char::is_uppercase`: the Unicode property *Uppercase*.
pub uninterp spec fn char_is_uppercase(c: char) -> bool;

/// `char::is_numeric`: one of the general categories for numbers.
pub uninterp spec fn char_is_numeric(c: char) -> bool;

/// The Unicode property *White_Space*, by the code points that have it.
pub open spec fn char_is_whitespace(c: char) -> bool {
    let x = c as u32;
    ||| 0x09 <= x <= 0x0D
    ||| x == 0x20
    ||| x == 0x85
    ||| x == 0xA0
    ||| x == 0x1680
    ||| 0x2000 <= x <= 0x200A
    ||| x == 0x2028
    ||| x == 0x2029
    ||| x == 0x202F
    ||| x == 0x205F
    ||| x == 0x3000
}

/// The two-letter abbreviation of a character's general category, such as `Lu`.
pub uninterp spec fn general_category(c: char) -> Seq<char>;

/// Trusted: `char::is_alphabetic` answers as the property that names it.
pub assume_specification[ char::is_alphabetic ](c: char) -> (b: bool)
    ensures
        b == char_is_alphabetic(c),
;

/// Trusted: `char::is_lowercase` answers as the property that names it.
pub assume_specification[ char::is_lowercase ](c: char) -> (b: bool)
    ensures
        b == char_is_lowercase(c),
;

/// Trusted: `char::is_uppercase` answers as the property that names it.
pub assume_specification[ char::is_uppercase ](c: char) -> (b: bool)
    ensures
        b == char_is_uppercase(c),
;

/// Trusted: `char::is_numeric` answers as the property that names it.
pub assume_specification[ char::is_numeric ](c: char) -> (b: bool)
    ensures
        b == char_is_numeric(c),
;

/// Trusted: `char::is_whitespace` tells whether a character has the property
/// *White_Space*.
pub assume_specification[ char::is_whitespace ](c: char) -> (b: bool)
    ensures
        b == char_is_whitespace(c),
;

/// Trusted: `char::from_u32` gives the character with that scalar value, and
/// `None` for a number that is no Unicode scalar value.
pub assume_specification[ char::from_u32 ](i: u32) -> (r: Option<char>)
    ensures
        is_scalar(i) ==> r == Some(i as char),
        !is_scalar(i) ==> r is None,
;

/// Trusted: `unicode_general_category::get_general_category`, handed out as
/// the category's `abbreviation`, a text of two ASCII letters.
#[verifier::external_body]
fn category_abbreviation(c: char) -> (s: &'static str)
    ensures
        s@ == general_category(c),
        s@.len() == 2,
        s.is_ascii(),
{
    unicode_general_category::get_general_category(c).abbreviation()
}

/// The general category of the character has the abbreviation `a`, `b`.
pub open spec fn in_category(c: char, a: char, b: char) -> bool {
    general_category(c) == seq![a, b]
}

/// Has the general category of `c` the abbreviation `a`, `b`?
pub fn is_category(c: char, a: u8, b: u8) -> (r: bool)
    requires
        a < 0x80,
        b < 0x80,
    ensures
        r == in_category(c, a as char, b as char),
{
    let s = category_abbreviation(c);
    proof {
        assert(general_category(c) =~= seq![general_category(c)[0], general_category(c)[1]]);
    }
    let (x, y) = (s.get_ascii(0), s.get_ascii(1));
    x == a && y == b
}

/// Is the character in the general categories whose abbreviation starts with `major`?
pub open spec fn in_major_category(c: char, major: char) -> bool {
    general_category(c)[0] == major
}

/// `\p{L}`.
pub open spec fn unicode_letter(c: char) -> bool {
    in_major_category(c, 'L')
}

/// `\p{M}`.
pub open spec fn unicode_mark(c: char) -> bool {
    in_major_category(c, 'M')
}

/// `[\p{P}\p{S}]`.
pub open spec fn punct_or_symbol(c: char) -> bool {
    in_major_category(c, 'P') || in_major_category(c, 'S')
}

/// The first letter of the general category's abbreviation, as a byte.
fn major_category(c: char) -> (b: u8)
    ensures
        b as int == general_category(c)[0] as int,
{
    let s = category_abbreviation(c);
    proof {
        vstd::string::is_ascii_spec_bytes(s);
    }
    s.get_ascii(0)
}

/// Is `c` in the general categories whose abbreviation starts with `major`?
pub fn is_major_category(c: char, major: u8) -> (b: bool)
    ensures
        b == in_major_category(c, major as char),
{
    major_category(c) == major
}

/// Is `c` a letter, `\p{L}`?
pub fn is_unicode_letter(c: char) -> (b: bool)
    ensures
        b == unicode_letter(c),
{
    major_category(c) == 0x4c
}

/// Is `c` a combining mark, `\p{M}`?
pub fn is_unicode_mark(c: char) -> (b: bool)
    ensures
        b == unicode_mark(c),
{
    major_category(c) == 0x4d
}

/// Is `c` punctuation or a symbol, `[\p{P}\p{S}]`?
pub fn is_punct_or_symbol(c: char) -> (b: bool)
    ensures
        b == punct_or_symbol(c),
{
    let m: u8 = major_category(c);
    m == 0x50 || m == 0x53
}

// ---- ASCII byte classes ----

pub open spec fn ascii_lower(b: u8) -> bool {
    0x61 <= b <= 0x7a
}

pub open spec fn ascii_upper(b: u8) -> bool {
    0x41 <= b <= 0x5a
}

pub open spec fn ascii_letter(b: u8) -> bool {
    ascii_lower(b) || ascii_upper(b)
}

pub open spec fn ascii_digit(b: u8) -> bool {
    0x30 <= b <= 0x39
}

/// `\n` or `\r`.
pub open spec fn newline(b: u8) -> bool {
    b == 0x0a || b == 0x0d
}

/// Space or tab.
pub open spec fn blank(b: u8) -> bool {
    b == 0x20 || b == 0x09
}

pub fn is_lower(b: u8) -> (r: bool)
    ensures
        r == ascii_lower(b),
{
    0x61 <= b && b <= 0x7a
}

pub fn is_upper(b: u8) -> (r: bool)
    ensures
        r == ascii_upper(b),
{
    0x41 <= b && b <= 0x5a
}

pub fn is_ascii_letter(b: u8) -> (r: bool)
    ensures
        r == ascii_letter(b),
{
    is_lower(b) || is_upper(b)
}

pub fn is_digit(b: u8) -> (r: bool)
    ensures
        r == ascii_digit(b),
{
    0x30 <= b && b <= 0x39
}

// ---- characters at positions ----

/// The bytes from `p` on.
pub open spec fn tail(b: Seq<u8>, p: int) -> Seq<u8> {
    b.subrange(p, b.len() as int)
}

/// `p` is the start of a character of the text `b`, or its end.
pub open spec fn boundary(b: Seq<u8>, p: int) -> bool {
    0 <= p <= b.len() && valid_utf8(tail(b, p))
}

/// The character that starts at `p`.
pub open spec fn char_at(b: Seq<u8>, p: int) -> char {
    decode_first_scalar(tail(b, p)) as char
}

/// The number of bytes that a character with the first byte `lead` takes.
pub open spec fn lead_len(lead: u8) -> int {
    if lead < 0x80 {
        1
    } else if lead < 0xe0 {
        2
    } else if lead < 0xf0 {
        3
    } else {
        4
    }
}

/// The position after the character that starts at `p`.
pub open spec fn after(b: Seq<u8>, p: int) -> int {
    p + lead_len(b[p])
}

/// A character that starts inside the text ends inside it, at a boundary.
pub proof fn lemma_after(b: Seq<u8>, p: int)
    requires
        boundary(b, p),
        p < b.len(),
    ensures
        p < after(b, p) <= b.len(),
        after(b, p) <= p + 4,
        boundary(b, after(b, p)),
        valid_first_scalar(tail(b, p)),
        length_of_first_scalar(tail(b, p)) == lead_len(b[p]),
        is_scalar(decode_first_scalar(tail(b, p))),
        char_at(b, p) as u32 == decode_first_scalar(tail(b, p)),
        !is_continuation_byte(b[p]),
        b[p] < 0x80 ==> char_at(b, p) as u32 == b[p] && after(b, p) == p + 1,
        b[p] >= 0x80 ==> char_at(b, p) as u32 >= 0x80,
        b[p] >= 0x80 ==> forall|i: int| p < i < after(b, p) ==> is_continuation_byte(#[trigger] b[i]),
{
    let t = tail(b, p);
    assert(t[0] == b[p]);
    assert(pop_first_scalar(t) =~= tail(b, after(b, p)));
    let b0 = t[0];
    assert(b0 <= 0x7f ==> (b0 & 0x7f) == b0) by (bit_vector);
    let (b1, b2) = (t[1], t[2]);
    assert(((((b0 & 0x1F) as u32) << 6) | ((b1 & 0x3f) as u32)) <= 0x7ff) by (bit_vector);
    assert(((((b0 & 0x0F) as u32) << 12) | (((b1 & 0x3f) as u32) << 6) | ((b2 & 0x3f) as u32))
        <= 0xffff) by (bit_vector);
    if b0 >= 0x80 {
        assert(forall|i: int| p < i < after(b, p) ==> #[trigger] b[i] == t[i - p]);
    }
}

/// The end of the text is a boundary, and so is its start when it is valid UTF-8.
pub proof fn lemma_boundary_ends(b: Seq<u8>)
    requires
        valid_utf8(b),
    ensures
        boundary(b, 0),
        boundary(b, b.len() as int),
{
    assert(tail(b, 0) =~= b);
    assert(tail(b, b.len() as int) =~= Seq::<u8>::empty());
}

/// A boundary of a valid text is a character boundary in the sense of `str`.
pub proof fn lemma_boundary_is_char_boundary(b: Seq<u8>, p: int)
    requires
        valid_utf8(b),
        boundary(b, p),
    ensures
        is_char_boundary(b, p),
{
    if p < b.len() {
        lemma_after(b, p);
        is_char_boundary_iff_not_is_continuation_byte(b, p);
    } else {
        is_char_boundary_start_end_of_seq(b);
    }
}

/// The character that starts at `pos`, and the number of bytes it takes.
pub fn decode_utf8(bytes: &[u8], pos: usize) -> (r: (char, usize))
    requires
        boundary(bytes@, pos as int),
        pos < bytes.len(),
    ensures
        r.0 == char_at(bytes@, pos as int),
        pos + r.1 == after(bytes@, pos as int),
        boundary(bytes@, pos + r.1),
        pos < pos + r.1 <= bytes.len(),
        bytes@[pos as int] >= 0x80 ==> r.0 as u32 >= 0x80,
{
    proof {
        lemma_after(bytes@, pos as int);
    }
    let ghost t = tail(bytes@, pos as int);
    let b0: u8 = bytes[pos];
    assert(b0 == t[0]);
    let n: usize;
    let cp: u32;
    if b0 < 0x80 {
        n = 1;
        cp = (b0 & 0x7F) as u32;
    } else if b0 < 0xe0 {
        let b1: u8 = bytes[pos + 1];
        assert(b1 == t[1]);
        n = 2;
        cp = (((b0 & 0x1F) as u32) << 6) | ((b1 & 0x3f) as u32);
    } else if b0 < 0xf0 {
        let b1: u8 = bytes[pos + 1];
        let b2: u8 = bytes[pos + 2];
        assert(b1 == t[1] && b2 == t[2]);
        n = 3;
        cp = (((b0 & 0x0F) as u32) << 12) | (((b1 & 0x3f) as u32) << 6) | ((b2 & 0x3f) as u32);
    } else {
        let b1: u8 = bytes[pos + 1];
        let b2: u8 = bytes[pos + 2];
        let b3: u8 = bytes[pos + 3];
        assert(b1 == t[1] && b2 == t[2] && b3 == t[3]);
        n = 4;
        cp = (((b0 & 0x07) as u32) << 18) | (((b1 & 0x3f) as u32) << 12) | (((b2 & 0x3f) as u32)
            << 6) | ((b3 & 0x3f) as u32);
    }
    assert(cp == decode_first_scalar(t));
    match char::from_u32(cp) {
        Some(c) => (c, n),
        None => ('\0', n),
    }
}

} // verus!
