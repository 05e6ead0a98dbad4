//! Texts and their UTF-8 bytes.
use crate::pretokie::util;
use vstd::prelude::*;
use vstd::string::*;
use vstd::utf8::*;

verus! {

/// Trusted: the error of `str::from_utf8`, carried and never looked into.
#[verifier::external_type_specification]
#[verifier::external_body]
pub struct ExUtf8Error(core::str::Utf8Error);

/// Trusted: `str::from_utf8` accepts exactly the valid UTF-8 byte sequences
/// and gives the text with those bytes.
pub assume_specification[ core::str::from_utf8 ](v: &[u8]) -> (r: Result<
    &str,
    core::str::Utf8Error,
>)
    ensures
        r is Ok <==> valid_utf8(v@),
        r is Ok ==> r->Ok_0.spec_bytes() == v@,
;

/// Trusted: `String::push` appends one character.
pub assume_specification[ String::push ](s: &mut String, c: char)
    ensures
        final(s)@ == old(s)@.push(c),
;

/// Trusted: `String::push_str` appends a text.
pub assume_specification[ String::push_str ](s: &mut String, t: &str)
    ensures
        final(s)@ == old(s)@ + t@,
;

/// Trusted: `String::pop` removes the last character, if there is one.
pub assume_specification[ String::pop ](s: &mut String) -> (r: Option<char>)
    ensures
        old(s)@.len() == 0 ==> r is None && final(s)@ == old(s)@,
        old(s)@.len() > 0 ==> r == Some(old(s)@.last()) && final(s)@ == old(s)@.drop_last(),
;

/// The text that stands for any bytes: what is not valid UTF-8 becomes U+FFFD.
pub uninterp spec fn lossy_text(b: Seq<u8>) -> Seq<char>;

/// A byte that UTF-8 text can hold.
pub open spec fn in_texts(b: u8) -> bool {
    b <= 0xF4 && b != 0xC0 && b != 0xC1
}

/// The bytes of UTF-8 text are such that text can hold them.
pub proof fn lemma_bytes_of_texts(b: Seq<u8>)
    requires
        valid_utf8(b),
    ensures
        forall|i: int| 0 <= i < b.len() ==> in_texts(#[trigger] b[i]),
    decreases b.len(),
{
    if b.len() > 0 {
        let n = length_of_first_scalar(b);
        let rest = pop_first_scalar(b);
        lemma_bytes_of_texts(rest);
        let (x, y, z, w) = (b[0], b[1], b[2], b[3]);
        assert(0xC0 <= x <= 0xC1 ==> (((x & 0x1F) as u32) << 6) | ((y & 0x3F) as u32) < 0x80u32)
            by (bit_vector);
        assert(0xF5 <= x <= 0xF7 ==> (((x & 0x07) as u32) << 18) | (((y & 0x3F) as u32) << 12) | (((
        z & 0x3F) as u32) << 6) | ((w & 0x3F) as u32) > 0x10FFFFu32) by (bit_vector);
        assert forall|i: int| 0 <= i < b.len() implies in_texts(#[trigger] b[i]) by {
            if i >= n {
                assert(b[i] == rest[i - n]);
            }
        }
    }
}

/// Trusted: `String::from_utf8_lossy`, as an owned text. Valid UTF-8 is kept.
#[verifier::external_body]
pub(crate) fn from_utf8_lossy(b: &[u8]) -> (r: String)
    ensures
        r@ == lossy_text(b@),
        valid_utf8(b@) ==> encode_utf8(r@) == b@,
{
    String::from_utf8_lossy(b).into_owned()
}

/// The UTF-8 bytes of a text.
pub open spec fn utf8(s: Seq<char>) -> Seq<u8> {
    encode_utf8(s)
}

/// The bytes of two texts in a row are the bytes of the one and of the other.
pub proof fn lemma_utf8_concat(a: Seq<char>, b: Seq<char>)
    ensures
        utf8(a + b) == utf8(a) + utf8(b),
    decreases a.len(),
{
    if a.len() == 0 {
        assert(a + b =~= b);
        assert(utf8(a) + utf8(b) =~= utf8(b));
    } else {
        lemma_utf8_concat(a.drop_first(), b);
        assert((a + b).drop_first() =~= a.drop_first() + b);
        assert(utf8(a + b) =~= utf8(a) + utf8(b));
    }
}

/// The bytes of a text with one more character.
pub proof fn lemma_utf8_push(a: Seq<char>, c: char)
    ensures
        utf8(a.push(c)) == utf8(a) + utf8(seq![c]),
{
    assert(a.push(c) =~= a + seq![c]);
    lemma_utf8_concat(a, seq![c]);
}

/// An ASCII character is one byte.
pub proof fn lemma_utf8_ascii(c: char)
    requires
        c as u32 <= 0x7f,
    ensures
        utf8(seq![c]) == seq![c as u8],
{
    let s = seq![c];
    assert(is_ascii_chars(s));
    is_ascii_chars_encode_utf8(s);
    assert(utf8(s)[0] == s[0] as u8);
    assert(utf8(s) =~= seq![c as u8]);
}

/// Two texts with the same bytes are the same text.
pub proof fn lemma_utf8_injective(a: Seq<char>, b: Seq<char>)
    requires
        utf8(a) == utf8(b),
    ensures
        a == b,
{
    encode_utf8_decode_utf8(a);
    encode_utf8_decode_utf8(b);
}

/// In a valid text, a byte that is no continuation byte starts a character.
pub proof fn lemma_lead_is_boundary(b: Seq<u8>, p: int)
    requires
        valid_utf8(b),
        0 <= p <= b.len(),
        p < b.len() ==> !is_continuation_byte(b[p]),
    ensures
        util::boundary(b, p),
{
    if p < b.len() {
        is_char_boundary_iff_not_is_continuation_byte(b, p);
        valid_utf8_split(b, p);
    } else {
        util::lemma_boundary_ends(b);
    }
}

/// The text of `s` from byte `i` to byte `j`.
pub fn substr<'a>(s: &'a str, i: usize, j: usize) -> (r: &'a str)
    requires
        i <= j,
        util::boundary(s.spec_bytes(), i as int),
        util::boundary(s.spec_bytes(), j as int),
    ensures
        r.spec_bytes() == s.spec_bytes().subrange(i as int, j as int),
{
    proof {
        encode_utf8_valid_utf8(s@);
        util::lemma_boundary_is_char_boundary(s.spec_bytes(), i as int);
    }
    let (_, rest) = s.split_at(i);
    let n: usize = j - i;
    proof {
        let r = rest.spec_bytes();
        encode_utf8_valid_utf8(rest@);
        assert(util::tail(r, n as int) =~= util::tail(s.spec_bytes(), j as int));
        util::lemma_boundary_is_char_boundary(r, n as int);
    }
    let (part, _) = rest.split_at(n);
    assert(part.spec_bytes() =~= s.spec_bytes().subrange(i as int, j as int));
    part
}

/// Are the texts the same?
pub fn same_text(a: &str, b: &str) -> (r: bool)
    ensures
        r == (a@ == b@),
{
    let x = a.as_bytes();
    let y = b.as_bytes();
    proof {
        if utf8(a@) == utf8(b@) {
            lemma_utf8_injective(a@, b@);
        }
    }
    same_bytes(x, y)
}

/// Are the bytes the same?
pub fn same_bytes(a: &[u8], b: &[u8]) -> (r: bool)
    ensures
        r == (a@ == b@),
{
    if a.len() != b.len() {
        return false;
    }
    let mut i: usize = 0;
    while i < a.len()
        invariant
            i <= a.len(),
            a.len() == b.len(),
            forall|j: int| 0 <= j < i ==> a@[j] == b@[j],
        decreases a.len() - i,
    {
        if a[i] != b[i] {
            return false;
        }
        i = i + 1;
    }
    assert(a@ =~= b@);
    true
}

/// The bytes stand somewhere in the other bytes.
pub open spec fn contains(h: Seq<u8>, needle: Seq<u8>) -> bool {
    exists|i: int| #[trigger] stands_at(h, needle, i)
}

/// The bytes stand at `i` in the other bytes.
pub open spec fn stands_at(h: Seq<u8>, needle: Seq<u8>, i: int) -> bool {
    0 <= i && i + needle.len() <= h.len() && h.subrange(i, i + needle.len()) == needle
}

/// Does a text stand in another?
pub fn contains_text(h: &str, needle: &str) -> (r: bool)
    ensures
        r == contains(utf8(h@), utf8(needle@)),
{
    let x = h.as_bytes();
    let y = needle.as_bytes();
    if y.len() > x.len() {
        return false;
    }
    let n: usize = x.len();
    let last: usize = n - y.len();
    let mut i: usize = 0;
    loop
        invariant
            x@ == utf8(h@),
            y@ == utf8(needle@),
            n == x@.len(),
            last == n - y@.len(),
            i <= last,
            forall|j: int| 0 <= j < i ==> !#[trigger] stands_at(x@, y@, j),
        decreases last - i,
    {
        if same_bytes(vstd::slice::slice_subrange(x, i, i + y.len()), y) {
            assert(stands_at(x@, y@, i as int));
            return true;
        }
        if i == last {
            return false;
        }
        i = i + 1;
    }
}

} // verus!
