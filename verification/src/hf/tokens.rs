//! Token texts and the bytes that they stand for.
use crate::bytes::{push_bytes, to_vec};
use crate::text;
use vstd::prelude::*;
use vstd::string::*;
use vstd::utf8::*;

verus! {

/// The `n`th of the bytes that have no character of their own: 0 to 32, 127
/// to 160, and 173.
pub open spec fn hidden_byte(n: int) -> u8 {
    if n <= 32 {
        n as u8
    } else if n <= 66 {
        (n + 94) as u8
    } else {
        173
    }
}

/// The bytes that a character of a ByteLevel token stands for: the hidden
/// bytes are written as U+0100 and up, the others as the character with their
/// number. Another character stands for its UTF-8 bytes.
pub open spec fn bytelevel_char(c: char) -> Seq<u8> {
    let code = c as u32;
    if 256 <= code < 324 {
        seq![hidden_byte(code - 256)]
    } else if code <= 255 {
        seq![code as u8]
    } else {
        text::utf8(seq![c])
    }
}

/// The bytes that a ByteLevel token stands for.
pub open spec fn bytelevel_bytes(s: Seq<char>) -> Seq<u8>
    decreases s.len(),
{
    if s.len() == 0 {
        seq![]
    } else {
        bytelevel_bytes(s.drop_last()) + bytelevel_char(s.last())
    }
}

/// The character that a byte is written as in a ByteLevel token.
pub open spec fn bytelevel_letter(b: u8) -> char {
    if b <= 32 {
        (256 + b) as char
    } else if 127 <= b <= 160 {
        (256 + b - 94) as char
    } else if b == 173 {
        323 as char
    } else {
        b as char
    }
}

/// Every byte has a character that stands for it.
pub proof fn law_bytelevel_covers_bytes(b: u8)
    ensures
        bytelevel_char(bytelevel_letter(b)) == seq![b],
{
    let c = bytelevel_letter(b);
    assert(bytelevel_char(c) =~= seq![b]);
}

/// Decode a HuggingFace ByteLevel token text to bytes.
pub fn decode_bytelevel_token(s: &str) -> (r: Vec<u8>)
    ensures
        r@ == bytelevel_bytes(s@),
{
    let mut out: Vec<u8> = Vec::new();
    assert(s@.subrange(0, 0) =~= seq![]);
    for c in it: s.chars()
        invariant
            it.seq() == s@,
            out@ == bytelevel_bytes(s@.subrange(0, it.index() as int)),
    {
        let code: u32 = c as u32;
        proof {
            let i = it.index() as int;
            let t = s@.subrange(0, i + 1);
            assert(t.drop_last() =~= s@.subrange(0, i));
            assert(t.last() == c);
        }
        let ghost before = out@;
        if code >= 256 && code < 324 {
            let n: u32 = code - 256;
            let b: u8 = if n <= 32 {
                n as u8
            } else if n <= 66 {
                (n + 94) as u8
            } else {
                173
            };
            out.push(b);
        } else if code <= 255 {
            out.push(code as u8);
        } else {
            let mut t = String::new();
            t.push(c);
            assert(t@ =~= seq![c]);
            push_bytes(&mut out, t.as_str().as_bytes());
        }
        assert(out@ =~= before + bytelevel_char(c));
    }
    assert(s@.subrange(0, s@.len() as int) =~= s@);
    out
}

/// The value of a hexadecimal digit.
pub open spec fn hex_digit(b: u8) -> Option<u8> {
    if 0x30 <= b <= 0x39 {
        Some((b - 0x30) as u8)
    } else if 0x61 <= b <= 0x66 {
        Some((b - 0x57) as u8)
    } else if 0x41 <= b <= 0x46 {
        Some((b - 0x37) as u8)
    } else {
        None
    }
}

/// The number that two hexadecimal digits make.
pub open spec fn hex_byte(a: u8, b: u8) -> Option<u8> {
    match (hex_digit(a), hex_digit(b)) {
        (Some(x), Some(y)) => Some((16 * x + y) as u8),
        _ => None,
    }
}

/// The byte that a token such as `<0x0A>` stands for.
pub open spec fn fallback_byte(b: Seq<u8>) -> Option<u8> {
    if b.len() == 6 && b[0] == 0x3c && b[1] == 0x30 && b[2] == 0x78 && b[5] == 0x3e {
        hex_byte(b[3], b[4])
    } else {
        None
    }
}

/// The value of a hexadecimal digit.
fn digit_value(b: u8) -> (r: Option<u8>)
    ensures
        r == hex_digit(b),
{
    if b >= 0x30 && b <= 0x39 {
        Some(b - 0x30)
    } else if b >= 0x61 && b <= 0x66 {
        Some(b - 0x57)
    } else if b >= 0x41 && b <= 0x46 {
        Some(b - 0x37)
    } else {
        None
    }
}

/// The byte that a token such as `<0x0A>` stands for, if it is one.
pub fn parse_fallback_bytes(b: &[u8]) -> (r: Option<u8>)
    ensures
        r == fallback_byte(b@),
{
    if b.len() == 6 && b[0] == 0x3c && b[1] == 0x30 && b[2] == 0x78 && b[5] == 0x3e {
        match (digit_value(b[3]), digit_value(b[4])) {
            (Some(x), Some(y)) => Some(16 * x + y),
            _ => None,
        }
    } else {
        None
    }
}

/// Parse a byte fallback token like `<0x0A>` and return the byte value.
/// Returns `None` if the token does not match the pattern.
pub fn parse_byte_fallback_token(s: &str) -> (r: Option<u8>)
    ensures
        r == fallback_byte(text::utf8(s@)),
{
    parse_fallback_bytes(s.as_bytes())
}

/// The bytes that a SentencePiece token stands for.
pub open spec fn sentencepiece_bytes(s: Seq<char>) -> Seq<u8> {
    match fallback_byte(text::utf8(s)) {
        Some(b) => seq![b],
        None => text::utf8(s),
    }
}

/// Decode a SentencePiece token text to bytes: `<0xXX>` is that byte, any
/// other text is its UTF-8 bytes, with `▁` as it is.
pub fn decode_sentencepiece_token(s: &str) -> (r: Vec<u8>)
    ensures
        r@ == sentencepiece_bytes(s@),
{
    match parse_byte_fallback_token(s) {
        Some(b) => {
            let v = vec![b];
            assert(v@ =~= seq![b]);
            v
        },
        None => to_vec(s.as_bytes()),
    }
}

} // verus!
