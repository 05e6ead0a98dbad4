//! Sections of numbers.
use crate::bytes;
use crate::bytes::{push_u32, read_u32, to_vec};
use crate::decoder::VocabDecoder;
use crate::serde::SerdeError;
use crate::order;
use crate::order::sort_keys;
use crate::types::{Split, TokenId};
use vstd::prelude::*;
use vstd::slice::*;

verus! {

// ---- numbers in a row ----

/// The bytes of numbers, one behind the other.
pub open spec fn words_bytes(v: Seq<u32>) -> Seq<u8>
    decreases v.len(),
{
    if v.len() == 0 {
        seq![]
    } else {
        words_bytes(v.drop_last()) + bytes::u32_bytes(v.last())
    }
}

/// The `n` numbers from `p` on.
pub open spec fn words_at(d: Seq<u8>, p: int, n: int) -> Seq<u32> {
    Seq::new(n as nat, |i: int| bytes::u32_at(d, p + 4 * i))
}

/// Four bytes for each number.
pub proof fn lemma_words_len(v: Seq<u32>)
    ensures
        words_bytes(v).len() == 4 * v.len(),
    decreases v.len(),
{
    if v.len() > 0 {
        lemma_words_len(v.drop_last());
        bytes::lemma_u32_bytes(v.last());
    }
}

/// Numbers that were written are read.
pub proof fn law_words_are_read_back(before: Seq<u8>, v: Seq<u32>, behind: Seq<u8>)
    ensures
        words_at(before + words_bytes(v) + behind, before.len() as int, v.len() as int) == v,
    decreases v.len(),
{
    let d = before + words_bytes(v) + behind;
    let p = before.len() as int;
    if v.len() > 0 {
        let front = v.drop_last();
        let word = bytes::u32_bytes(v.last());
        lemma_words_len(front);
        lemma_words_len(v);
        assert(d =~= before + words_bytes(front) + (word + behind));
        law_words_are_read_back(before, front, word + behind);
        assert(d =~= (before + words_bytes(front)) + word + behind);
        bytes::lemma_u32_at(before + words_bytes(front), v.last(), behind);
        assert forall|i: int| 0 <= i < v.len() implies #[trigger] words_at(
            d,
            p,
            v.len() as int,
        )[i] == v[i] by {
            if i < front.len() {
                assert(words_at(d, p, front.len() as int)[i] == front[i]);
            }
        }
    }
    assert(words_at(d, p, v.len() as int) =~= v);
}

/// Append numbers.
pub fn push_words(out: &mut Vec<u8>, v: &[u32])
    ensures
        final(out)@ == old(out)@ + words_bytes(v@),
{
    let mut i: usize = 0;
    assert(v@.subrange(0, 0) =~= seq![]);
    assert(out@ =~= old(out)@ + words_bytes(v@.subrange(0, 0)));
    while i < v.len()
        invariant
            i <= v.len(),
            out@ == old(out)@ + words_bytes(v@.subrange(0, i as int)),
        decreases v.len() - i,
    {
        proof {
            let s = v@.subrange(0, i + 1);
            assert(s.drop_last() =~= v@.subrange(0, i as int));
            assert(s.last() == v@[i as int]);
        }
        push_u32(out, v[i]);
        assert(out@ =~= old(out)@ + words_bytes(v@.subrange(0, i + 1)));
        i = i + 1;
    }
    assert(v@.subrange(0, v@.len() as int) =~= v@);
}

/// Read `n` numbers from `p` on.
pub fn read_words(d: &[u8], p: usize, n: usize) -> (r: Vec<u32>)
    requires
        p + 4 * n <= d@.len(),
    ensures
        r@ == words_at(d@, p as int, n as int),
{
    let len: usize = d.len();
    let mut out: Vec<u32> = Vec::new();
    let mut i: usize = 0;
    while i < n
        invariant
            i <= n,
            len == d@.len(),
            p + 4 * n <= len,
            out@ == words_at(d@, p as int, i as int),
        decreases n - i,
    {
        out.push(read_u32(d, p + 4 * i));
        assert(out@ =~= words_at(d@, p as int, i + 1));
        i = i + 1;
    }
    out
}

// ---- the vocabulary ----

/// The section of a vocabulary: the number of offsets, the offsets, the data.
pub open spec fn vocab_bytes(starts: Seq<u32>, data: Seq<u8>) -> Seq<u8> {
    bytes::u32_bytes(starts.len() as u32) + words_bytes(starts) + data
}

/// What is wrong with the section of a vocabulary of `n` tokens.
pub open spec fn vocab_error(d: Seq<u8>, n: int) -> Option<SerdeError> {
    if d.len() < 4 {
        Some(SerdeError::InvalidData("decoder data too small"))
    } else if bytes::u32_at(d, 0) != n + 1 {
        Some(SerdeError::InvalidData("offset count mismatch"))
    } else if d.len() < 4 + 4 * (n + 1) {
        Some(SerdeError::InvalidData("decoder data truncated"))
    } else {
        None
    }
}

/// The offsets in the section of a vocabulary of `n` tokens.
pub open spec fn vocab_starts(d: Seq<u8>, n: int) -> Seq<u32> {
    words_at(d, 4, n + 1)
}

/// The data in the section of a vocabulary of `n` tokens.
pub open spec fn vocab_data(d: Seq<u8>, n: int) -> Seq<u8> {
    d.subrange(4 + 4 * (n + 1), d.len() as int)
}

/// A vocabulary that was written is read.
pub proof fn law_vocab_is_read_back(starts: Seq<u32>, data: Seq<u8>)
    requires
        0 < starts.len() <= u32::MAX,
    ensures
        vocab_error(vocab_bytes(starts, data), starts.len() - 1) is None,
        vocab_starts(vocab_bytes(starts, data), starts.len() - 1) == starts,
        vocab_data(vocab_bytes(starts, data), starts.len() - 1) == data,
{
    let d = vocab_bytes(starts, data);
    let head = bytes::u32_bytes(starts.len() as u32);
    bytes::lemma_u32_bytes(starts.len() as u32);
    lemma_words_len(starts);
    assert(d =~= Seq::<u8>::empty() + head + (words_bytes(starts) + data));
    bytes::lemma_u32_at(Seq::<u8>::empty(), starts.len() as u32, words_bytes(starts) + data);
    law_words_are_read_back(head, starts, data);
    assert(vocab_data(d, starts.len() - 1) =~= data);
}

/// Serialize the vocab decoder's flat buffer.
pub fn serialize_vocab_decoder(decoder: &VocabDecoder) -> (r: Vec<u8>)
    ensures
        r@ == vocab_bytes(decoder.starts(), decoder.buffer()),
{
    let (data, offsets) = decoder.as_parts();
    let mut buf: Vec<u8> = Vec::new();
    push_u32(&mut buf, offsets.len() as u32);
    push_words(&mut buf, offsets);
    bytes::push_bytes(&mut buf, data);
    assert(buf@ =~= vocab_bytes(decoder.starts(), decoder.buffer()));
    buf
}

/// Deserialize the decoder's flat buffer: offsets and data.
pub fn deserialize_decoder(data: &[u8], vocab_size: usize) -> (r: Result<
    (Vec<u32>, Vec<u8>),
    SerdeError,
>)
    ensures
        match r {
            Ok(p) => {
                &&& vocab_error(data@, vocab_size as int) is None
                &&& p.0@ == vocab_starts(data@, vocab_size as int)
                &&& p.1@ == vocab_data(data@, vocab_size as int)
            },
            Err(e) => vocab_error(data@, vocab_size as int) == Some(e),
        },
{
    if data.len() < 4 {
        return Err(SerdeError::InvalidData("decoder data too small"));
    }
    let num_offsets: usize = read_u32(data, 0) as usize;
    if num_offsets == 0 || num_offsets - 1 != vocab_size {
        return Err(SerdeError::InvalidData("offset count mismatch"));
    }
    if (data.len() - 4) / 4 < num_offsets {
        return Err(SerdeError::InvalidData("decoder data truncated"));
    }
    let offsets = read_words(data, 4, num_offsets);
    let offsets_end: usize = 4 + num_offsets * 4;
    let rest = to_vec(slice_subrange(data, offsets_end, data.len()));
    Ok((offsets, rest))
}

// ---- splits ----

/// The two halves of each split, in a row.
pub open spec fn split_words(v: Seq<Split>) -> Seq<u32> {
    Seq::new(
        2 * v.len(),
        |i: int|
            if i % 2 == 0 {
                v[i / 2].left
            } else {
                v[i / 2].right
            },
    )
}

/// The splits in a section.
pub open spec fn splits_in(d: Seq<u8>) -> Seq<Split> {
    Seq::new(
        d.len() / 8,
        |i: int| Split { left: bytes::u32_at(d, 8 * i), right: bytes::u32_at(d, 8 * i + 4) },
    )
}

/// Splits that were written are read.
pub proof fn law_splits_are_read_back(v: Seq<Split>)
    ensures
        words_bytes(split_words(v)).len() % 8 == 0,
        splits_in(words_bytes(split_words(v))) == v,
{
    let w = split_words(v);
    let d = words_bytes(w);
    lemma_words_len(w);
    assert(d =~= Seq::<u8>::empty() + d + Seq::<u8>::empty());
    law_words_are_read_back(Seq::<u8>::empty(), w, Seq::<u8>::empty());
    assert forall|i: int| 0 <= i < v.len() implies #[trigger] splits_in(d)[i] == v[i] by {
        assert(words_at(d, 0, w.len() as int)[2 * i] == w[2 * i]);
        assert(words_at(d, 0, w.len() as int)[2 * i + 1] == w[2 * i + 1]);
        assert((2 * i) / 2 == i && (2 * i + 1) / 2 == i);
    }
    assert(splits_in(d) =~= v);
}

/// Serialize the split table.
pub fn serialize_splits(splits: &[Split]) -> (r: Vec<u8>)
    ensures
        r@ == words_bytes(split_words(splits@)),
{
    let mut buf: Vec<u8> = Vec::new();
    let ghost w = split_words(splits@);
    let mut i: usize = 0;
    assert(w.subrange(0, 0) =~= seq![]);
    while i < splits.len()
        invariant
            i <= splits.len(),
            w == split_words(splits@),
            buf@ == words_bytes(w.subrange(0, 2 * i)),
        decreases splits.len() - i,
    {
        proof {
            let s = w.subrange(0, 2 * i + 1);
            let t = w.subrange(0, 2 * i + 2);
            assert(s.drop_last() =~= w.subrange(0, 2 * i as int));
            assert(t.drop_last() =~= s);
            assert((2 * i) / 2 == i && (2 * i + 1) / 2 == i);
            assert(s.last() == splits@[i as int].left);
            assert(t.last() == splits@[i as int].right);
            assert(words_bytes(s) == buf@ + bytes::u32_bytes(s.last()));
            assert(words_bytes(t) == words_bytes(s) + bytes::u32_bytes(t.last()));
        }
        push_u32(&mut buf, splits[i].left);
        push_u32(&mut buf, splits[i].right);
        assert(buf@ == words_bytes(w.subrange(0, 2 * i + 2)));
        i = i + 1;
    }
    assert(w.subrange(0, 2 * splits@.len() as int) =~= w);
    buf
}

/// Deserialize the split table.
pub fn deserialize_splits(data: &[u8]) -> (r: Result<Vec<Split>, SerdeError>)
    ensures
        match r {
            Ok(v) => data@.len() % 8 == 0 && v@ == splits_in(data@),
            Err(e) => data@.len() % 8 != 0 && e == SerdeError::InvalidData(
                "split data size not aligned",
            ),
        },
{
    if data.len() % 8 != 0 {
        return Err(SerdeError::InvalidData("split data size not aligned"));
    }
    let n: usize = data.len() / 8;
    let mut splits: Vec<Split> = Vec::new();
    let mut i: usize = 0;
    while i < n
        invariant
            i <= n,
            n == data@.len() / 8,
            8 * n <= data@.len() <= usize::MAX,
            splits@ == splits_in(data@).subrange(0, i as int),
        decreases n - i,
    {
        let left: u32 = read_u32(data, 8 * i);
        let right: u32 = read_u32(data, 8 * i + 4);
        splits.push(Split { left, right });
        assert(splits@ =~= splits_in(data@).subrange(0, i + 1));
        i = i + 1;
    }
    assert(splits@ =~= splits_in(data@));
    Ok(splits)
}

// ---- next prefix matches ----

/// Serialize the table of next prefix matches.
pub fn serialize_prefix_match(prefixes: &[TokenId]) -> (r: Vec<u8>)
    ensures
        r@ == words_bytes(prefixes@),
{
    let mut buf: Vec<u8> = Vec::new();
    push_words(&mut buf, prefixes);
    assert(buf@ =~= words_bytes(prefixes@));
    buf
}

/// Deserialize the table of next prefix matches.
pub fn deserialize_prefix_match(data: &[u8]) -> (r: Result<Vec<TokenId>, SerdeError>)
    ensures
        match r {
            Ok(v) => data@.len() % 4 == 0 && v@ == words_at(data@, 0, data@.len() as int / 4),
            Err(e) => data@.len() % 4 != 0 && e == SerdeError::InvalidData(
                "prefix data size not aligned",
            ),
        },
{
    if data.len() % 4 != 0 {
        return Err(SerdeError::InvalidData("prefix data size not aligned"));
    }
    Ok(read_words(data, 0, data.len() / 4))
}

// ---- merges ----

/// The three numbers of each merge (left, right, merged), in a row.
pub open spec fn merge_words(v: Seq<(TokenId, TokenId, TokenId)>) -> Seq<u32> {
    Seq::new(
        3 * v.len(),
        |i: int|
            if i % 3 == 0 {
                v[i / 3].0
            } else if i % 3 == 1 {
                v[i / 3].1
            } else {
                v[i / 3].2
            },
    )
}

/// The merges in a section.
pub open spec fn merges_in(d: Seq<u8>) -> Seq<(TokenId, TokenId, TokenId)> {
    Seq::new(
        d.len() / 12,
        |i: int|
            (
                bytes::u32_at(d, 12 * i),
                bytes::u32_at(d, 12 * i + 4),
                bytes::u32_at(d, 12 * i + 8),
            ),
    )
}

/// Merges that were written are read.
pub proof fn law_merges_are_read_back(v: Seq<(TokenId, TokenId, TokenId)>)
    ensures
        words_bytes(merge_words(v)).len() % 12 == 0,
        merges_in(words_bytes(merge_words(v))) == v,
{
    let w = merge_words(v);
    let d = words_bytes(w);
    lemma_words_len(w);
    assert(d =~= Seq::<u8>::empty() + d + Seq::<u8>::empty());
    law_words_are_read_back(Seq::<u8>::empty(), w, Seq::<u8>::empty());
    let all = words_at(d, 0, w.len() as int);
    assert forall|i: int| 0 <= i < v.len() implies #[trigger] merges_in(d)[i] == v[i] by {
        assert(all[3 * i] == w[3 * i]);
        assert(all[3 * i + 1] == w[3 * i + 1]);
        assert(all[3 * i + 2] == w[3 * i + 2]);
        assert((3 * i) / 3 == i && (3 * i + 1) / 3 == i && (3 * i + 2) / 3 == i);
    }
    assert(merges_in(d) =~= v);
}

/// Serialize a list of merges, in order of rank.
pub fn serialize_merges(merges: &[(TokenId, TokenId, TokenId)]) -> (r: Vec<u8>)
    ensures
        r@ == words_bytes(merge_words(merges@)),
{
    let mut buf: Vec<u8> = Vec::new();
    let ghost w = merge_words(merges@);
    let mut i: usize = 0;
    assert(w.subrange(0, 0) =~= seq![]);
    while i < merges.len()
        invariant
            i <= merges.len(),
            w == merge_words(merges@),
            buf@ == words_bytes(w.subrange(0, 3 * i)),
        decreases merges.len() - i,
    {
        proof {
            let s = w.subrange(0, 3 * i + 1);
            let t = w.subrange(0, 3 * i + 2);
            let u = w.subrange(0, 3 * i + 3);
            assert(s.drop_last() =~= w.subrange(0, 3 * i as int));
            assert(t.drop_last() =~= s);
            assert(u.drop_last() =~= t);
            assert((3 * i) / 3 == i && (3 * i + 1) / 3 == i && (3 * i + 2) / 3 == i);
            assert(s.last() == merges@[i as int].0);
            assert(t.last() == merges@[i as int].1);
            assert(u.last() == merges@[i as int].2);
            assert(words_bytes(s) == buf@ + bytes::u32_bytes(s.last()));
            assert(words_bytes(t) == words_bytes(s) + bytes::u32_bytes(t.last()));
            assert(words_bytes(u) == words_bytes(t) + bytes::u32_bytes(u.last()));
        }
        push_u32(&mut buf, merges[i].0);
        push_u32(&mut buf, merges[i].1);
        push_u32(&mut buf, merges[i].2);
        assert(buf@ == words_bytes(w.subrange(0, 3 * i + 3)));
        i = i + 1;
    }
    assert(w.subrange(0, 3 * merges@.len() as int) =~= w);
    buf
}

/// Deserialize a list of merges.
pub fn deserialize_merges(data: &[u8]) -> (r: Result<
    Vec<(TokenId, TokenId, TokenId)>,
    SerdeError,
>)
    ensures
        match r {
            Ok(v) => data@.len() % 12 == 0 && v@ == merges_in(data@),
            Err(e) => data@.len() % 12 != 0 && e == SerdeError::InvalidData(
                "merge data size not aligned (expected 12 bytes per merge)",
            ),
        },
{
    if data.len() % 12 != 0 {
        return Err(
            SerdeError::InvalidData("merge data size not aligned (expected 12 bytes per merge)"),
        );
    }
    let n: usize = data.len() / 12;
    let mut merges: Vec<(TokenId, TokenId, TokenId)> = Vec::new();
    let mut i: usize = 0;
    while i < n
        invariant
            i <= n,
            n == data@.len() / 12,
            12 * n <= data@.len() <= usize::MAX,
            merges@ == merges_in(data@).subrange(0, i as int),
        decreases n - i,
    {
        let left: u32 = read_u32(data, 12 * i);
        let right: u32 = read_u32(data, 12 * i + 4);
        let merged: u32 = read_u32(data, 12 * i + 8);
        merges.push((left, right, merged));
        assert(merges@ =~= merges_in(data@).subrange(0, i + 1));
        i = i + 1;
    }
    assert(merges@ =~= merges_in(data@));
    Ok(merges)
}

/// The ranks of merges: rank, left, right, merged.
pub open spec fn ranks(v: Seq<(u32, TokenId, TokenId, TokenId)>) -> Seq<u32> {
    Seq::new(v.len(), |i: int| v[i].0)
}

/// The merges without their ranks, in this order.
pub open spec fn without_ranks(v: Seq<(u32, TokenId, TokenId, TokenId)>, o: Seq<usize>) -> Seq<
    (TokenId, TokenId, TokenId),
> {
    Seq::new(o.len(), |i: int| (v[o[i] as int].1, v[o[i] as int].2, v[o[i] as int].3))
}

/// The bytes are those of the merges in order of rank.
pub open spec fn ranked_bytes(v: Seq<(u32, TokenId, TokenId, TokenId)>, d: Seq<u8>) -> bool {
    exists|o: Seq<usize>| #[trigger]
        order::in_order(ranks(v), o, 0, v.len() as int) && d == words_bytes(
            merge_words(without_ranks(v, o)),
        )
}

/// Serialize merges, given as rank, left, right and merged, in order of rank.
pub fn serialize_pair_lookup(pairs: &[(u32, TokenId, TokenId, TokenId)]) -> (r: Vec<u8>)
    ensures
        ranked_bytes(pairs@, r@),
{
    let mut keys: Vec<u32> = Vec::new();
    while keys.len() < pairs.len()
        invariant
            keys@.len() <= pairs@.len(),
            forall|k: int| 0 <= k < keys@.len() ==> #[trigger] keys@[k] == pairs@[k].0,
        decreases pairs.len() - keys.len(),
    {
        let next = pairs[keys.len()].0;
        keys.push(next);
    }
    assert(keys@ =~= ranks(pairs@));
    let places = sort_keys(keys.as_slice());
    let mut merges: Vec<(TokenId, TokenId, TokenId)> = Vec::new();
    let mut i: usize = 0;
    while i < places.len()
        invariant
            i <= places@.len(),
            order::in_order(ranks(pairs@), places@, 0, pairs@.len() as int),
            merges@ == without_ranks(pairs@, places@).subrange(0, i as int),
        decreases places.len() - i,
    {
        let (_, left, right, merged) = pairs[places[i]];
        merges.push((left, right, merged));
        assert(merges@ =~= without_ranks(pairs@, places@).subrange(0, i + 1));
        i = i + 1;
    }
    assert(merges@ =~= without_ranks(pairs@, places@));
    serialize_merges(merges.as_slice())
}

} // verus!
