//! Cutting a text into chunks of about one size.
use vstd::prelude::*;

verus! {

/// The last position in `[lo, hi)` with one of the delimiters, or -1.
pub open spec fn last_delimiter(text: Seq<u8>, delimiters: Seq<u8>, lo: int, hi: int) -> int
    decreases hi - lo,
{
    if hi <= lo {
        -1
    } else if delimiters.contains(text[hi - 1]) {
        hi - 1
    } else {
        last_delimiter(text, delimiters, lo, hi - 1)
    }
}

/// Where the chunk from `pos` on ends: at the end of the text if that is near
/// enough, else before the last delimiter of the next `size` bytes, else
/// behind those bytes.
pub open spec fn chunk_end(text: Seq<u8>, pos: int, size: int, delimiters: Seq<u8>) -> int {
    if text.len() - pos <= size {
        text.len() as int
    } else {
        let d = last_delimiter(text, delimiters, pos, pos + size);
        if d > pos {
            d
        } else {
            pos + size
        }
    }
}

/// The chunks of a text from `pos` on.
pub open spec fn chunks_from(text: Seq<u8>, pos: int, size: int, delimiters: Seq<u8>) -> Seq<
    Seq<u8>,
>
    decreases text.len() - pos,
{
    if pos < 0 || pos >= text.len() || size <= 0 {
        seq![]
    } else {
        let end = chunk_end(text, pos, size, delimiters);
        proof {
            lemma_chunk_end(text, pos, size, delimiters);
        }
        seq![text.subrange(pos, end)] + chunks_from(text, end, size, delimiters)
    }
}

/// A chunk is not empty and at most `size` bytes long.
pub proof fn lemma_chunk_end(text: Seq<u8>, pos: int, size: int, delimiters: Seq<u8>)
    requires
        0 <= pos < text.len(),
        size > 0,
    ensures
        pos < chunk_end(text, pos, size, delimiters) <= text.len(),
        chunk_end(text, pos, size, delimiters) <= pos + size,
{
    lemma_last_delimiter(text, delimiters, pos, pos + size);
}

proof fn lemma_last_delimiter(text: Seq<u8>, delimiters: Seq<u8>, lo: int, hi: int)
    requires
        lo >= 0,
    ensures
        -1 <= last_delimiter(text, delimiters, lo, hi),
        hi > lo ==> last_delimiter(text, delimiters, lo, hi) < hi,
    decreases hi - lo,
{
    if hi > lo {
        lemma_last_delimiter(text, delimiters, lo, hi - 1);
    }
}

/// The contents of slices.
pub open spec fn slices(v: Seq<&[u8]>) -> Seq<Seq<u8>> {
    Seq::new(v.len(), |i: int| v[i]@)
}

/// Byte strings, one behind the other.
pub open spec fn joined(parts: Seq<Seq<u8>>) -> Seq<u8>
    decreases parts.len(),
{
    if parts.len() == 0 {
        seq![]
    } else {
        parts[0] + joined(parts.subrange(1, parts.len() as int))
    }
}

/// The chunks of a text, one behind the other, are the text.
pub proof fn law_chunks_are_the_text(text: Seq<u8>, pos: int, size: int, delimiters: Seq<u8>)
    requires
        0 <= pos <= text.len(),
        size > 0,
    ensures
        joined(chunks_from(text, pos, size, delimiters)) == text.subrange(pos, text.len() as int),
    decreases text.len() - pos,
{
    let c = chunks_from(text, pos, size, delimiters);
    if pos < text.len() {
        let end = chunk_end(text, pos, size, delimiters);
        lemma_chunk_end(text, pos, size, delimiters);
        law_chunks_are_the_text(text, end, size, delimiters);
        assert(c.subrange(1, c.len() as int) =~= chunks_from(text, end, size, delimiters));
        assert(text.subrange(pos, end) + text.subrange(end, text.len() as int) =~= text.subrange(
            pos,
            text.len() as int,
        ));
    } else {
        assert(joined(c) =~= text.subrange(pos, text.len() as int));
    }
}

/// Trusted: `chunk::chunk` with a target size and delimiters, in its prefix
/// mode, cuts a text into chunks.
#[verifier::external_body]
pub(crate) fn chunks<'a>(text: &'a [u8], size: usize, delimiters: &'a [u8]) -> (r: Vec<&'a [u8]>)
    requires
        size > 0,
    ensures
        slices(r@) == chunks_from(text@, 0, size as int, delimiters@),
{
    chunk::chunk(text).size(size).delimiters(delimiters).prefix().collect()
}

} // verus!
