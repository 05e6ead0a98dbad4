//! Units of text that each start at a metaspace, and what they encode to.
use crate::encoder::backtracking;
use crate::maps;
use crate::replace;
use crate::types::TokenId;
use vstd::bytes::*;
use vstd::prelude::*;
use vstd::slice::*;

verus! {

/// log2 of the size of the direct-mapped front table.
pub const FRONT_BITS: u32 = 18;

/// The size of the direct-mapped front table.
pub const FRONT_SIZE: usize = 0x4_0000;

/// Units of at most this many bytes are packed into a key.
pub const SHORT_KEY_MAX: usize = 15;

/// Metaspace in UTF-8.
pub open spec fn mark() -> Seq<u8> {
    seq![0xE2, 0x96, 0x81]
}

/// A metaspace stands at `i`.
pub open spec fn mark_at(b: Seq<u8>, i: int) -> bool {
    0 <= i && i + 3 <= b.len() && b[i] == 0xE2 && b[i + 1] == 0x96 && b[i + 2] == 0x81
}

proof fn lemma_mark_at(b: Seq<u8>, i: int)
    ensures
        mark_at(b, i) == replace::occurs_at(b, mark(), i),
{
    if 0 <= i && i + 3 <= b.len() {
        let s = b.subrange(i, i + 3);
        assert(s[0] == b[i] && s[1] == b[i + 1] && s[2] == b[i + 2]);
        if mark_at(b, i) {
            assert(s =~= mark());
        }
    }
}

/// These are the metaspaces of the text from `i` on, in order.
spec fn all_marks(b: Seq<u8>, i: int, found: Seq<int>) -> bool {
    &&& forall|k: int| 0 <= k < found.len() ==> i <= #[trigger] found[k] && mark_at(b, found[k])
    &&& forall|k: int, l: int| 0 <= k < l < found.len() ==> found[k] < found[l]
    &&& forall|p: int| i <= p && #[trigger] mark_at(b, p) ==> found.contains(p)
}

/// The metaspaces from `i` on are all found, in order.
proof fn lemma_marks(b: Seq<u8>, i: int)
    requires
        0 <= i,
    ensures
        all_marks(b, i, replace::occurrences(b, mark(), i)),
    decreases b.len() - i,
{
    let all = replace::occurrences(b, mark(), i);
    assert(mark().len() == 3);
    lemma_mark_at(b, i);
    if i + 3 <= b.len() {
        if mark_at(b, i) {
            let rest = replace::occurrences(b, mark(), i + 3);
            lemma_marks(b, i + 3);
            assert(all == seq![i] + rest);
            assert forall|k: int| 0 <= k < all.len() implies i <= #[trigger] all[k] && mark_at(
                b,
                all[k],
            ) by {
                if k > 0 {
                    assert(all[k] == rest[k - 1]);
                }
            }
            assert forall|k: int, l: int| 0 <= k < l < all.len() implies all[k] < all[l] by {
                assert(all[l] == rest[l - 1]);
                if k > 0 {
                    assert(all[k] == rest[k - 1]);
                }
            }
            assert forall|p: int| i <= p && #[trigger] mark_at(b, p) implies all.contains(p) by {
                if p == i {
                    assert(all[0] == p);
                } else {
                    assert(rest.contains(p));
                    let k = choose|k: int| 0 <= k < rest.len() && rest[k] == p;
                    assert(all[k + 1] == p);
                }
            }
        } else {
            lemma_marks(b, i + 1);
            assert(all == replace::occurrences(b, mark(), i + 1));
        }
    }
}

/// Where the metaspaces of a text are.
fn marks(b: &[u8]) -> (r: Vec<usize>)
    ensures
        forall|k: int| 0 <= k < r@.len() ==> mark_at(b@, #[trigger] r@[k] as int),
        forall|k: int, l: int| 0 <= k < l < r@.len() ==> r@[k] < r@[l],
        forall|p: int|
            #[trigger] mark_at(b@, p) ==> exists|k: int| 0 <= k < r@.len() && #[trigger] r@[k] == p,
{
    let needle: [u8; 3] = [0xE2, 0x96, 0x81];
    assert(needle@ =~= mark());
    let r = replace::find_every(b, needle.as_slice());
    proof {
        let all = replace::occurrences(b@, mark(), 0);
        lemma_marks(b@, 0);
        assert(replace::positions(r@) == all);
        assert forall|k: int| 0 <= k < r@.len() implies #[trigger] r@[k] == all[k] by {
            assert(replace::positions(r@)[k] == r@[k]);
        }
        assert forall|p: int| #[trigger] mark_at(b@, p) implies exists|k: int|
            0 <= k < r@.len() && #[trigger] r@[k] == p by {
            assert(all.contains(p));
            let k = choose|k: int| 0 <= k < all.len() && all[k] == p;
            assert(r@[k] == p);
        }
    }
    r
}

/// No token holds a metaspace but at its start.
pub open spec fn splittable(tokens: Seq<Seq<u8>>) -> bool {
    forall|i: int, p: int|
        0 <= i < tokens.len() && 0 < p ==> !#[trigger] mark_at(tokens[i], p)
}

/// Whether a text may be split at every metaspace: a metaspace inside a token
/// marks one that no unit could hold.
pub fn compute_unit_split_safe(token_bytes: &[Vec<u8>]) -> (r: bool)
    ensures
        r == splittable(backtracking::views(token_bytes@)),
{
    let ghost all = backtracking::views(token_bytes@);
    let mut i: usize = 0;
    while i < token_bytes.len()
        invariant
            i <= token_bytes.len(),
            all == backtracking::views(token_bytes@),
            forall|k: int, p: int| 0 <= k < i && 0 < p ==> !#[trigger] mark_at(all[k], p),
        decreases token_bytes.len() - i,
    {
        let found = marks(token_bytes[i].as_slice());
        let n = found.len();
        if n > 0 && found[n - 1] > 0 {
            assert(mark_at(all[i as int], found@[n - 1] as int));
            return false;
        }
        proof {
            assert forall|p: int| 0 < p implies !#[trigger] mark_at(all[i as int], p) by {
                if mark_at(all[i as int], p) {
                    let k = choose|k: int| 0 <= k < found@.len() && found@[k] == p;
                    assert(found@[k] <= found@[n - 1]);
                }
            }
        }
        i = i + 1;
    }
    true
}

/// The text is cut into these units: one after the other, none empty, and cut
/// at each metaspace but one at the start, and nowhere else.
pub open spec fn cut_into(b: Seq<u8>, u: Seq<(usize, usize)>) -> bool {
    &&& u.len() == 0 <==> b.len() == 0
    &&& u.len() > 0 ==> u[0].0 == 0 && u.last().1 == b.len()
    &&& forall|i: int| 0 <= i < u.len() ==> (#[trigger] u[i]).0 < u[i].1 <= b.len()
    &&& forall|i: int, j: int|
        0 <= i && i + 1 == j < u.len() ==> (#[trigger] u[i]).1 == (#[trigger] u[j]).0 && mark_at(
            b,
            u[j].0 as int,
        )
    &&& forall|i: int, p: int|
        0 <= i < u.len() && (#[trigger] u[i]).0 < p < u[i].1 ==> !#[trigger] mark_at(b, p)
}

/// Split a text at every metaspace.
pub fn units(b: &[u8]) -> (r: Vec<(usize, usize)>)
    ensures
        cut_into(b@, r@),
{
    let found = marks(b);
    let mut out: Vec<(usize, usize)> = Vec::new();
    let mut start: usize = 0;
    let mut i: usize = 0;
    while i < found.len()
        invariant
            i <= found@.len(),
            forall|k: int| 0 <= k < found@.len() ==> mark_at(b@, #[trigger] found@[k] as int),
            forall|k: int, l: int| 0 <= k < l < found@.len() ==> found@[k] < found@[l],
            forall|p: int|
                #[trigger] mark_at(b@, p) ==> exists|k: int|
                    0 <= k < found@.len() && #[trigger] found@[k] == p,
            start <= b@.len(),
            i > 0 ==> start == found@[i - 1],
            i == 0 ==> start == 0,
            out@.len() == 0 <==> start == 0,
            start > 0 ==> mark_at(b@, start as int),
            out@.len() > 0 ==> out@[0].0 == 0 && out@.last().1 == start,
            forall|k: int| 0 <= k < out@.len() ==> (#[trigger] out@[k]).0 < out@[k].1 <= b@.len(),
            forall|k: int, l: int|
                0 <= k && k + 1 == l < out@.len() ==> (#[trigger] out@[k]).1 == (
                #[trigger] out@[l]).0 && mark_at(b@, out@[l].0 as int),
            forall|k: int, p: int|
                0 <= k < out@.len() && (#[trigger] out@[k]).0 < p < out@[k].1
                    ==> !#[trigger] mark_at(b@, p),
        decreases found.len() - i,
    {
        let pos: usize = found[i];
        assert(mark_at(b@, pos as int));
        if pos > start {
            proof {
                assert forall|p: int| start < p < pos implies !#[trigger] mark_at(b@, p) by {
                    if mark_at(b@, p) {
                        let k = choose|k: int| 0 <= k < found@.len() && found@[k] == p;
                        if k < i {
                            assert(found@[k] <= found@[i - 1]);
                        } else {
                            assert(found@[k] >= found@[i as int]);
                        }
                    }
                }
            }
            out.push((start, pos));
            start = pos;
        }
        i = i + 1;
    }
    if start < b.len() {
        proof {
            assert forall|p: int| start < p < b@.len() implies !#[trigger] mark_at(b@, p) by {
                if mark_at(b@, p) {
                    let k = choose|k: int| 0 <= k < found@.len() && found@[k] == p;
                    assert(found@[k] <= found@[found@.len() - 1]);
                }
            }
        }
        out.push((start, b.len()));
    }
    out
}

/// There is but one way to cut a text into units.
pub proof fn law_one_cut(b: Seq<u8>, u: Seq<(usize, usize)>, v: Seq<(usize, usize)>)
    requires
        cut_into(b, u),
        cut_into(b, v),
    ensures
        u == v,
{
    lemma_same_cut(b, u, v, u.len() as int);
    lemma_same_cut(b, v, u, v.len() as int);
    assert(u =~= v);
}

proof fn lemma_same_cut(b: Seq<u8>, u: Seq<(usize, usize)>, v: Seq<(usize, usize)>, n: int)
    requires
        cut_into(b, u),
        cut_into(b, v),
        0 <= n <= u.len(),
    ensures
        n <= v.len(),
        forall|i: int| 0 <= i < n ==> #[trigger] u[i] == v[i],
    decreases n,
{
    if n > 0 {
        lemma_same_cut(b, u, v, n - 1);
        let k = n - 1;
        if n > 1 {
            assert(u[k].0 == u[k - 1].1);
            if k == v.len() {
                assert(v.last() == v[k - 1]);
                assert(v[k - 1].1 == b.len());
            }
            assert(v[k].0 == v[k - 1].1);
        }
        assert(u[k].0 == v[k].0);
        if u[k].1 < v[k].1 {
            if k + 1 == u.len() {
                assert(u.last() == u[k]);
            } else {
                assert(u[k + 1].0 == u[k].1 && mark_at(b, u[k + 1].0 as int));
            }
        }
        if v[k].1 < u[k].1 {
            if k + 1 == v.len() {
                assert(v.last() == v[k]);
            } else {
                assert(v[k + 1].0 == v[k].1 && mark_at(b, v[k + 1].0 as int));
            }
        }
    }
}

/// The tokens without the unknown tokens that they start with.
pub open spec fn without_leading(t: Seq<TokenId>, unk: TokenId) -> Seq<TokenId>
    decreases t.len(),
{
    if t.len() > 0 && t[0] == unk {
        without_leading(t.subrange(1, t.len() as int), unk)
    } else {
        t
    }
}

/// Tokens behind others, where a run of unknown tokens stays a single one.
pub open spec fn joined(out: Seq<TokenId>, t: Seq<TokenId>, unk: TokenId) -> Seq<TokenId> {
    if out.len() > 0 && out.last() == unk {
        out + without_leading(t, unk)
    } else {
        out + t
    }
}

/// No two unknown tokens stand side by side.
pub open spec fn single_unknowns(t: Seq<TokenId>, unk: TokenId) -> bool {
    forall|i: int| 0 < i < t.len() && #[trigger] t[i] == unk ==> t[i - 1] != unk
}

/// `n` unknown tokens stand at the start, and no more.
proof fn lemma_leading(t: Seq<TokenId>, unk: TokenId, n: int)
    requires
        0 <= n <= t.len(),
        forall|i: int| 0 <= i < n ==> #[trigger] t[i] == unk,
        n < t.len() ==> t[n] != unk,
    ensures
        without_leading(t, unk) == t.subrange(n, t.len() as int),
    decreases n,
{
    if n > 0 {
        let rest = t.subrange(1, t.len() as int);
        assert(t[0] == unk);
        assert forall|i: int| 0 <= i < n - 1 implies #[trigger] rest[i] == unk by {
            assert(t[i + 1] == unk);
        }
        lemma_leading(rest, unk, n - 1);
        assert(rest.subrange(n - 1, rest.len() as int) =~= t.subrange(n, t.len() as int));
    } else {
        assert(t.subrange(0, t.len() as int) =~= t);
    }
}

/// Tokens in which unknown ones stand single stay so where they are joined.
pub proof fn law_joined_single(out: Seq<TokenId>, t: Seq<TokenId>, unk: TokenId)
    requires
        single_unknowns(out, unk),
        single_unknowns(t, unk),
    ensures
        single_unknowns(joined(out, t, unk), unk),
{
    let n: int = if t.len() > 0 && t[0] == unk {
        1
    } else {
        0
    };
    if n == 1 && t.len() > 1 {
        assert(t[1] == unk ==> t[0] != unk);
    }
    lemma_leading(t, unk, n);
    let j = joined(out, t, unk);
    let off: int = if out.len() > 0 && out.last() == unk {
        n
    } else {
        0
    };
    assert forall|i: int| 0 < i < j.len() && #[trigger] j[i] == unk implies j[i - 1] != unk by {
        if i < out.len() {
            assert(out[i] == unk);
        } else {
            assert(j[i] == t[i - out.len() + off]);
            if i > out.len() {
                assert(j[i - 1] == t[i - 1 - out.len() + off]);
            } else {
                assert(j[i - 1] == out.last());
            }
        }
    }
}

/// Append tokens, so that consecutive unknown tokens stay collapsed.
pub fn append_collapsing_unk(out: &mut Vec<TokenId>, tokens: &[TokenId], unk: TokenId)
    ensures
        final(out)@ == joined(old(out)@, tokens@, unk),
{
    let mut start: usize = 0;
    let n = out.len();
    if n > 0 && out[n - 1] == unk {
        while start < tokens.len() && tokens[start] == unk
            invariant
                start <= tokens@.len(),
                forall|i: int| 0 <= i < start ==> #[trigger] tokens@[i] == unk,
            decreases tokens.len() - start,
        {
            start = start + 1;
        }
        proof {
            lemma_leading(tokens@, unk, start as int);
        }
    } else {
        assert(tokens@.subrange(0, tokens@.len() as int) =~= tokens@);
    }
    let rest = slice_subrange(tokens, start, tokens.len());
    out.extend_from_slice(rest);
}

/// Collapse what was appended from `at` on against the token before it.
pub fn collapse_unk_join(out: &mut Vec<TokenId>, at: usize, unk: TokenId)
    requires
        at <= old(out)@.len(),
    ensures
        final(out)@ == joined(
            old(out)@.subrange(0, at as int),
            old(out)@.subrange(at as int, old(out)@.len() as int),
            unk,
        ),
{
    let ghost front = out@.subrange(0, at as int);
    let ghost t = out@.subrange(at as int, out@.len() as int);
    assert(out@ =~= front + t);
    if at == 0 || at == out.len() || out[at - 1] != unk || out[at] != unk {
        proof {
            if at > 0 {
                assert(front.last() == out@[at - 1]);
            }
        }
        return;
    }
    assert(front.last() == unk);
    let mut end: usize = at;
    while end < out.len() && out[end] == unk
        invariant
            at <= end <= out@.len(),
            out@ == front + t,
            front.len() == at,
            forall|i: int| 0 <= i < end - at ==> #[trigger] t[i] == unk,
        decreases out.len() - end,
    {
        assert(t[end - at] == out@[end as int]);
        end = end + 1;
    }
    proof {
        if end < out@.len() {
            assert(t[end - at] == out@[end as int]);
        }
        lemma_leading(t, unk, end - at);
    }
    let mut kept: Vec<TokenId> = Vec::new();
    kept.extend_from_slice(slice_subrange(out.as_slice(), 0, at));
    kept.extend_from_slice(slice_subrange(out.as_slice(), end, out.len()));
    assert(kept@ =~= front + t.subrange(end - at, t.len() as int));
    *out = kept;
}

/// A unit that is packed into a key.
pub open spec fn is_short(b: Seq<u8>) -> bool {
    0 < b.len() <= SHORT_KEY_MAX
}

/// The bytes of a key: the unit, zeros, and its length.
spec fn lanes(b: Seq<u8>) -> Seq<u8> {
    Seq::new(
        16,
        |i: int|
            if i == 15 {
                b.len() as u8
            } else if i < b.len() {
                b[i]
            } else {
                0
            },
    )
}

/// The key of a unit.
spec fn key_of(b: Seq<u8>) -> u128 {
    spec_u128_from_le_bytes(lanes(b))
}

/// Where a key stands in the front table.
spec fn slot(key: u128) -> int {
    let low = (key & 0xFFFF_FFFF_FFFF_FFFF) as u64;
    let high = (key >> 64u128) as u64;
    ((low ^ high).wrapping_mul(0x9E37_79B9_7F4A_7C15) >> 46u64) as int
}

/// Units with one key are the same.
proof fn lemma_keys(a: Seq<u8>, b: Seq<u8>)
    requires
        is_short(a),
        is_short(b),
    ensures
        key_of(a) == key_of(b) <==> a == b,
{
    lemma_auto_spec_u128_to_from_le_bytes();
    let x = lanes(a);
    let y = lanes(b);
    assert(spec_u128_to_le_bytes(key_of(a)) == x);
    assert(spec_u128_to_le_bytes(key_of(b)) == y);
    assert(x[15] == a.len() && y[15] == b.len());
    if key_of(a) == key_of(b) {
        assert(a.len() == b.len());
        assert forall|i: int| 0 <= i < a.len() implies a[i] == b[i] by {
            assert(x[i] == a[i] && y[i] == b[i]);
        }
        assert(a =~= b);
    }
}

/// Memoization of the encodings of units.
///
/// Units repeat heavily in text. An entry is a range of an append-only token
/// arena, so that encodings of any length are held.
pub struct UnigramPieceCache {
    arena: Vec<TokenId>,
    /// Direct-mapped table in front of the map of short units. An entry whose
    /// range is empty holds no unit.
    front_keys: Vec<u128>,
    front_vals: Vec<(u32, u32)>,
    short: foldhash::HashMap<u128, (u32, u32)>,
    long: foldhash::HashMap<Box<[u8]>, (u32, u32)>,
    known: Ghost<Map<Seq<u8>, Seq<TokenId>>>,
}

/// The range of the arena holds the tokens.
spec fn range_holds(arena: Seq<TokenId>, r: (u32, u32), t: Seq<TokenId>) -> bool {
    r.0 + r.1 <= arena.len() && arena.subrange(r.0 as int, r.0 + r.1) == t
}

impl UnigramPieceCache {
    /// The units that are held, with their tokens.
    pub closed spec fn held(&self) -> Map<Seq<u8>, Seq<TokenId>> {
        self.known@
    }

    /// How many tokens the arena holds.
    pub closed spec fn tokens_held(&self) -> nat {
        self.arena@.len()
    }

    /// The tables hold what is known, and nothing else.
    pub closed spec fn wf(&self) -> bool {
        let short = maps::key_map(self.short);
        let long = maps::range_map(self.long);
        &&& self.front_keys@.len() == FRONT_SIZE
        &&& self.front_vals@.len() == FRONT_SIZE
        &&& forall|i: int|
            0 <= i < FRONT_SIZE && (#[trigger] self.front_vals@[i]).1 > 0 ==> short.contains_key(
                self.front_keys@[i],
            ) && self.front_vals@[i] == short[self.front_keys@[i]] && i == slot(
                self.front_keys@[i],
            )
        &&& forall|b: Seq<u8>|
            is_short(b) ==> (#[trigger] self.known@.contains_key(b) <==> short.contains_key(
                key_of(b),
            ))
        &&& forall|b: Seq<u8>|
            is_short(b) && #[trigger] self.known@.contains_key(b) ==> range_holds(
                self.arena@,
                short[key_of(b)],
                self.known@[b],
            )
        &&& forall|b: Seq<u8>|
            !is_short(b) ==> (#[trigger] self.known@.contains_key(b) <==> long.contains_key(b))
        &&& forall|b: Seq<u8>|
            !is_short(b) && #[trigger] self.known@.contains_key(b) ==> range_holds(
                self.arena@,
                long[b],
                self.known@[b],
            )
    }

    /// A cache that holds nothing.
    pub fn new() -> (r: Self)
        ensures
            r.wf(),
            r.held() == Map::<Seq<u8>, Seq<TokenId>>::empty(),
            r.tokens_held() == 0,
    {
        let mut front_vals: Vec<(u32, u32)> = Vec::with_capacity(FRONT_SIZE);
        while front_vals.len() < FRONT_SIZE
            invariant
                front_vals@.len() <= FRONT_SIZE,
                forall|i: int| 0 <= i < front_vals@.len() ==> #[trigger] front_vals@[i] == (
                    0u32,
                    0u32,
                ),
            decreases FRONT_SIZE - front_vals.len(),
        {
            front_vals.push((0, 0));
        }
        UnigramPieceCache {
            arena: Vec::new(),
            front_keys: vec![0u128; FRONT_SIZE],
            front_vals,
            short: maps::new_key_map(),
            long: maps::new_range_map(),
            known: Ghost(Map::empty()),
        }
    }

    /// Drop all cached entries.
    pub fn clear(&mut self)
        ensures
            final(self).wf(),
            final(self).held() == Map::<Seq<u8>, Seq<TokenId>>::empty(),
            final(self).tokens_held() == 0,
    {
        *self = Self::new();
    }

    /// Where a key stands in the front table.
    fn front_index(key: u128) -> (i: usize)
        ensures
            i < FRONT_SIZE,
            i == slot(key),
    {
        let low: u64 = (key & 0xFFFF_FFFF_FFFF_FFFF) as u64;
        let high: u64 = (key >> 64u128) as u64;
        let h: u64 = (low ^ high).wrapping_mul(0x9E37_79B9_7F4A_7C15);
        assert(h >> 46u64 < 0x4_0000) by (bit_vector);
        (h >> (64 - FRONT_BITS) as u64) as usize
    }

    /// Pack a short unit into a key with its length.
    fn pack_key(bytes: &[u8]) -> (r: Option<u128>)
        ensures
            r == if is_short(bytes@) {
                Some(key_of(bytes@))
            } else {
                None
            },
    {
        let n = bytes.len();
        if n == 0 || n > SHORT_KEY_MAX {
            return None;
        }
        let mut all: Vec<u8> = Vec::new();
        all.extend_from_slice(bytes);
        while all.len() < 15
            invariant
                n <= all@.len() <= 15,
                n == bytes@.len(),
                forall|i: int| 0 <= i < n ==> #[trigger] all@[i] == bytes@[i],
                forall|i: int| n <= i < all@.len() ==> #[trigger] all@[i] == 0,
            decreases 15 - all.len(),
        {
            all.push(0);
        }
        all.push(n as u8);
        assert(all@ =~= lanes(bytes@));
        Some(u128_from_le_bytes(all.as_slice()))
    }

    /// Append a range of the arena.
    fn append(&self, range: (u32, u32), out: &mut Vec<TokenId>)
        requires
            range.0 + range.1 <= self.arena@.len(),
        ensures
            final(out)@ == old(out)@ + self.arena@.subrange(range.0 as int, range.0 + range.1),
    {
        let start: usize = range.0 as usize;
        let n = self.arena.len();
        let end: usize = start + range.1 as usize;
        out.extend_from_slice(slice_subrange(self.arena.as_slice(), start, end));
    }

    /// Append the tokens of a unit, if it is held.
    pub fn lookup(&mut self, unit: &[u8], out: &mut Vec<TokenId>) -> (r: bool)
        requires
            old(self).wf(),
        ensures
            final(self).wf(),
            final(self).held() == old(self).held(),
            final(self).tokens_held() == old(self).tokens_held(),
            r == old(self).held().contains_key(unit@),
            r ==> final(out)@ == old(out)@ + old(self).held()[unit@],
            !r ==> final(out)@ == old(out)@,
    {
        assert(self.known@.contains_key(unit@) == self.held().contains_key(unit@));
        match Self::pack_key(unit) {
            Some(key) => {
                let i = Self::front_index(key);
                if self.front_keys[i] == key && self.front_vals[i].1 > 0 {
                    let range = self.front_vals[i];
                    self.append(range, out);
                    return true;
                }
                match maps::key_map_get(&self.short, key) {
                    Some(range) => {
                        self.front_keys.set(i, key);
                        self.front_vals.set(i, range);
                        self.append(range, out);
                        true
                    },
                    None => false,
                }
            },
            None => match maps::range_map_get(&self.long, unit) {
                Some(range) => {
                    self.append(range, out);
                    true
                },
                None => false,
            },
        }
    }

    /// Hold the tokens of a unit. Neither empty units nor empty encodings are
    /// held, nor what the arena has no room for.
    pub fn insert(&mut self, unit: &[u8], toks: &[TokenId])
        requires
            old(self).wf(),
        ensures
            final(self).wf(),
            unit@.len() > 0 && toks@.len() > 0 && old(self).tokens_held() + toks@.len()
                <= u32::MAX ==> {
                &&& final(self).held() == old(self).held().insert(unit@, toks@)
                &&& final(self).tokens_held() == old(self).tokens_held() + toks@.len()
            },
            !(unit@.len() > 0 && toks@.len() > 0 && old(self).tokens_held() + toks@.len()
                <= u32::MAX) ==> *final(self) == *old(self),
    {
        let start = self.arena.len();
        let n = toks.len();
        if unit.len() == 0 || n == 0 || start > u32::MAX as usize || n > u32::MAX as usize - start {
            return;
        }
        let range: (u32, u32) = (start as u32, n as u32);
        let ghost before = *self;
        self.arena.extend_from_slice(toks);
        proof {
            self.known = Ghost(self.known@.insert(unit@, toks@));
            assert(self.arena@.subrange(start as int, start + n) =~= toks@);
            assert forall|r: (u32, u32), t: Seq<TokenId>| #[trigger]
                range_holds(before.arena@, r, t) implies range_holds(self.arena@, r, t) by {
                assert(self.arena@.subrange(r.0 as int, r.0 + r.1) =~= before.arena@.subrange(
                    r.0 as int,
                    r.0 + r.1,
                ));
            }
            assert forall|b: Seq<u8>| is_short(unit@) && is_short(b) implies (#[trigger] key_of(b)
                == key_of(unit@) <==> b == unit@) by {
                lemma_keys(b, unit@);
            }
        }
        match Self::pack_key(unit) {
            Some(key) => {
                maps::key_map_insert(&mut self.short, key, range);
                let i = Self::front_index(key);
                self.front_keys.set(i, key);
                self.front_vals.set(i, range);
            },
            None => {
                maps::range_map_insert(&mut self.long, unit, range);
            },
        }
    }
}

} // verus!
