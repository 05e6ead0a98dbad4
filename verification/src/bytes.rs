//! Little-endian numbers in byte sequences.
use vstd::bytes::*;
use vstd::prelude::*;
use vstd::slice::*;

verus! {

/// The little-endian `u32` in the four bytes from `p` on.
pub open spec fn u32_at(d: Seq<u8>, p: int) -> u32 {
    spec_u32_from_le_bytes(d.subrange(p, p + 4))
}

/// The four bytes of a `u32`, least significant first.
pub open spec fn u32_bytes(x: u32) -> Seq<u8> {
    spec_u32_to_le_bytes(x)
}

/// The little-endian `u16` in the two bytes from `p` on.
pub open spec fn u16_at(d: Seq<u8>, p: int) -> u16 {
    spec_u16_from_le_bytes(d.subrange(p, p + 2))
}

/// The two bytes of a `u16`, least significant first.
pub open spec fn u16_bytes(x: u16) -> Seq<u8> {
    spec_u16_to_le_bytes(x)
}

/// Four bytes hold a `u32` and give it back.
pub proof fn lemma_u32_bytes(x: u32)
    ensures
        u32_bytes(x).len() == 4,
        spec_u32_from_le_bytes(u32_bytes(x)) == x,
{
    lemma_auto_spec_u32_to_from_le_bytes();
    assert(spec_u32_to_le_bytes(x).len() == 4);
}

/// Two bytes hold a `u16` and give it back.
pub proof fn lemma_u16_bytes(x: u16)
    ensures
        u16_bytes(x).len() == 2,
        spec_u16_from_le_bytes(u16_bytes(x)) == x,
{
    lemma_auto_spec_u16_to_from_le_bytes();
    assert(spec_u16_to_le_bytes(x).len() == 2);
}

/// A `u32` that was written at `p` is the one that is read there.
pub proof fn lemma_u32_at(before: Seq<u8>, x: u32, behind: Seq<u8>)
    ensures
        u32_at(before + u32_bytes(x) + behind, before.len() as int) == x,
{
    lemma_u32_bytes(x);
    let d = before + u32_bytes(x) + behind;
    assert(d.subrange(before.len() as int, before.len() as int + 4) =~= u32_bytes(x));
}

/// Read the little-endian `u32` at `p`.
pub fn read_u32(d: &[u8], p: usize) -> (x: u32)
    requires
        p + 4 <= d.len(),
    ensures
        x == u32_at(d@, p as int),
{
    u32_from_le_bytes(slice_subrange(d, p, p + 4))
}

/// Read the little-endian `u16` at `p`.
pub fn read_u16(d: &[u8], p: usize) -> (x: u16)
    requires
        p + 2 <= d.len(),
    ensures
        x == u16_at(d@, p as int),
{
    u16_from_le_bytes(slice_subrange(d, p, p + 2))
}

/// Append bytes.
pub fn push_bytes(out: &mut Vec<u8>, d: &[u8])
    ensures
        final(out)@ == old(out)@ + d@,
{
    out.extend_from_slice(d);
    assert(out@ =~= old(out)@ + d@);
}

/// Append a `u32`, least significant byte first.
pub fn push_u32(out: &mut Vec<u8>, x: u32)
    ensures
        final(out)@ == old(out)@ + u32_bytes(x),
{
    let b: Vec<u8> = u32_to_le_bytes(x);
    push_bytes(out, b.as_slice());
}

/// Append a `u16`, least significant byte first.
pub fn push_u16(out: &mut Vec<u8>, x: u16)
    ensures
        final(out)@ == old(out)@ + u16_bytes(x),
{
    let b: Vec<u8> = u16_to_le_bytes(x);
    push_bytes(out, b.as_slice());
}

/// The bytes of a slice as a vector of its own.
pub fn to_vec(d: &[u8]) -> (v: Vec<u8>)
    ensures
        v@ == d@,
{
    slice_to_vec(d)
}

} // verus!
