//! Lookups from bytes to tokens, and which token a byte stands for where
//! several have it.
use crate::bytes::to_vec;
use crate::decoder;
use crate::encoder::backtracking;
use crate::encoder::backtracking::MAX_CACHED_TOKEN_LEN;
use crate::maps;
use crate::types::TokenId;
use vstd::prelude::*;
use vstd::slice::*;

verus! {

/// The id that stands for no token.
pub const NO_TOKEN: TokenId = 0xFFFF_FFFF;

/// ID range window for byte-fallback cluster detection. SentencePiece models
/// place about 256 byte-fallback tokens in a contiguous ID range; 300 allows
/// slack for gaps and special tokens within the range.
pub const FALLBACK_CLUSTER_WINDOW: u32 = 300;

/// Minimum single-byte tokens required to identify a byte-fallback cluster.
pub const FALLBACK_CLUSTER_MIN_DENSITY: usize = 200;

/// The fewest single-byte tokens among which a cluster is looked for.
pub const FALLBACK_MIN_TOKENS: usize = 256;

/// `v` is the first token with the bytes `b`.
pub open spec fn first_token(vocab: Seq<Seq<u8>>, b: Seq<u8>, v: int) -> bool {
    &&& 0 <= v < vocab.len()
    &&& vocab[v] == b
    &&& forall|k: int| 0 <= k < v ==> #[trigger] vocab[k] != b
}

/// The tokens among the first `n` that are the byte `x` alone, in order.
pub open spec fn tokens_of_byte(vocab: Seq<Seq<u8>>, n: int, x: u8) -> Seq<TokenId>
    decreases n,
{
    if n <= 0 {
        seq![]
    } else if vocab[n - 1] == seq![x] {
        tokens_of_byte(vocab, n - 1, x).push((n - 1) as u32)
    } else {
        tokens_of_byte(vocab, n - 1, x)
    }
}

/// The map leads from each short token's bytes to its id: to the first one
/// with a single byte, to the last one with other bytes.
pub open spec fn caches(m: Map<Seq<u8>, TokenId>, vocab: Seq<Seq<u8>>) -> bool {
    forall|b: Seq<u8>|
        {
            &&& #[trigger] m.contains_key(b) <==> b.len() <= MAX_CACHED_TOKEN_LEN
                && backtracking::is_token(vocab, b)
            &&& m.contains_key(b) && b.len() == 1 ==> first_token(vocab, b, m[b] as int)
            &&& m.contains_key(b) && b.len() != 1 ==> backtracking::last_token(
                vocab,
                b,
                m[b] as int,
            )
        }
}

/// Token lookups of a vocabulary.
pub struct Lookups {
    /// The token of each byte, [`NO_TOKEN`] where there is none.
    pub byte_lut: Vec<TokenId>,
    /// The tokens of short byte strings.
    pub token_cache: foldhash::HashMap<Vec<u8>, TokenId>,
    pub token_lengths: Vec<u16>,
    /// All tokens of each byte.
    pub byte_tokens: Vec<Vec<TokenId>>,
}

/// The first of some tokens, if there is one.
pub open spec fn first_or_none(ids: Seq<TokenId>) -> TokenId {
    if ids.len() == 0 {
        NO_TOKEN
    } else {
        ids[0]
    }
}

proof fn lemma_caches_push(m: Map<Seq<u8>, TokenId>, q: Map<Seq<u8>, TokenId>, vocab: Seq<Seq<u8>>, t: Seq<u8>)
    requires
        caches(m, vocab),
        vocab.len() < u32::MAX,
        t.len() == 1 && m.contains_key(t) ==> q == m,
        t.len() == 1 && !m.contains_key(t) ==> q == m.insert(t, vocab.len() as u32),
        t.len() != 1 && t.len() <= MAX_CACHED_TOKEN_LEN ==> q == m.insert(t, vocab.len() as u32),
        t.len() > MAX_CACHED_TOKEN_LEN ==> q == m,
    ensures
        caches(q, vocab.push(t)),
{
    let more = vocab.push(t);
    let n = vocab.len() as int;
    assert(more[n] == t);
    assert forall|b: Seq<u8>|
        {
            &&& #[trigger] q.contains_key(b) <==> b.len() <= MAX_CACHED_TOKEN_LEN
                && backtracking::is_token(more, b)
            &&& q.contains_key(b) && b.len() == 1 ==> first_token(more, b, q[b] as int)
            &&& q.contains_key(b) && b.len() != 1 ==> backtracking::last_token(
                more,
                b,
                q[b] as int,
            )
        } by {
        assert(m.contains_key(b) <==> b.len() <= MAX_CACHED_TOKEN_LEN && backtracking::is_token(
            vocab,
            b,
        ));
        if backtracking::is_token(vocab, b) {
            let k = choose|k: int| 0 <= k < vocab.len() && #[trigger] vocab[k] == b;
            assert(more[k] == b);
        }
        if backtracking::is_token(more, b) && b != t {
            let k = choose|k: int| 0 <= k < more.len() && #[trigger] more[k] == b;
            assert(vocab[k] == b);
        }
        if m.contains_key(b) && b.len() == 1 {
            assert(first_token(vocab, b, m[b] as int));
            assert(more[m[b] as int] == b);
        }
        if m.contains_key(b) && b.len() != 1 {
            assert(backtracking::last_token(vocab, b, m[b] as int));
            assert(more[m[b] as int] == b);
        }
        if b == t && b.len() == 1 && !m.contains_key(b) {
            assert forall|k: int| 0 <= k < n implies #[trigger] more[k] != b by {
                assert(vocab[k] == more[k]);
            }
        }
    }
}

/// Build token lookups directly from decoder data.
pub fn build_token_lookups(decoder_offsets: &[u32], decoder_data: &[u8], vocab_size: usize) -> (r:
    Lookups)
    requires
        decoder_offsets@.len() == vocab_size + 1,
        decoder::offsets_fit(decoder_offsets@, decoder_data@.len() as int),
        vocab_size < u32::MAX,
    ensures
        ({
            let vocab = decoder::tokens_of(decoder_data@, decoder_offsets@);
            &&& r.byte_lut@.len() == 256
            &&& r.byte_tokens@.len() == 256
            &&& forall|x: u8|
                (#[trigger] r.byte_tokens@[x as int])@ == tokens_of_byte(
                    vocab,
                    vocab.len() as int,
                    x,
                )
            &&& forall|x: u8|
                #[trigger] r.byte_lut@[x as int] == first_or_none(
                    tokens_of_byte(vocab, vocab.len() as int, x),
                )
            &&& caches(maps::bytes_map(r.token_cache), vocab)
            &&& r.token_lengths@.len() == vocab.len()
            &&& forall|i: int|
                0 <= i < vocab.len() ==> #[trigger] r.token_lengths@[i] == vocab[i].len() as u16
        }),
{
    let ghost vocab = decoder::tokens_of(decoder_data@, decoder_offsets@);
    let mut byte_lut: Vec<TokenId> = Vec::new();
    let mut byte_tokens: Vec<Vec<TokenId>> = Vec::new();
    let mut k: usize = 0;
    while k < 256
        invariant
            k <= 256,
            byte_lut@.len() == k,
            byte_tokens@.len() == k,
            forall|x: int| 0 <= x < k ==> (#[trigger] byte_tokens@[x])@ == Seq::<TokenId>::empty(),
            forall|x: int| 0 <= x < k ==> #[trigger] byte_lut@[x] == NO_TOKEN,
        decreases 256 - k,
    {
        byte_lut.push(NO_TOKEN);
        byte_tokens.push(Vec::new());
        k = k + 1;
    }
    let mut token_cache = maps::new_bytes_map();
    let mut token_lengths: Vec<u16> = Vec::new();
    let mut i: usize = 0;
    let n: usize = decoder_data.len();
    proof {
        let none = vocab.subrange(0, 0);
        let m = maps::bytes_map(token_cache);
        assert forall|b: Seq<u8>|
            {
                &&& #[trigger] m.contains_key(b) <==> b.len() <= MAX_CACHED_TOKEN_LEN
                    && backtracking::is_token(none, b)
                &&& m.contains_key(b) && b.len() == 1 ==> first_token(none, b, m[b] as int)
                &&& m.contains_key(b) && b.len() != 1 ==> backtracking::last_token(
                    none,
                    b,
                    m[b] as int,
                )
            } by {}
    }
    while i < vocab_size
        invariant
            i <= vocab_size,
            n == decoder_data@.len(),
            decoder_offsets@.len() == vocab_size + 1,
            decoder::offsets_fit(decoder_offsets@, decoder_data@.len() as int),
            vocab_size < u32::MAX,
            vocab == decoder::tokens_of(decoder_data@, decoder_offsets@),
            byte_lut@.len() == 256,
            byte_tokens@.len() == 256,
            forall|x: u8|
                (#[trigger] byte_tokens@[x as int])@ == tokens_of_byte(vocab, i as int, x),
            forall|x: u8| #[trigger]
                byte_lut@[x as int] == first_or_none(tokens_of_byte(vocab, i as int, x)),
            caches(maps::bytes_map(token_cache), vocab.subrange(0, i as int)),
            token_lengths@.len() == i,
            forall|j: int|
                0 <= j < i ==> #[trigger] token_lengths@[j] == vocab[j].len() as u16,
        decreases vocab_size - i,
    {
        let start: usize = decoder_offsets[i] as usize;
        let end: usize = decoder_offsets[i + 1] as usize;
        assert(start <= end <= n);
        let bytes = slice_subrange(decoder_data, start, end);
        let ghost t = vocab[i as int];
        let ghost before = maps::bytes_map(token_cache);
        assert(bytes@ == t);
        let len: usize = bytes.len();
        #[verifier::truncate]
        let short = len as u16;
        token_lengths.push(short);
        let ghost tokens = byte_tokens@;
        let ghost lut = byte_lut@;
        if len == 1 {
            let x: u8 = bytes[0];
            let at: usize = x as usize;
            assert(t =~= seq![x]);
            byte_tokens[at].push(i as u32);
            if byte_lut[at] == NO_TOKEN {
                byte_lut.set(at, i as u32);
            }
            match maps::bytes_map_get(&token_cache, bytes) {
                Some(_) => {},
                None => {
                    maps::bytes_map_insert(&mut token_cache, to_vec(bytes), i as u32);
                },
            }
            proof {
                lemma_ids_below(vocab, i as int, x);
                assert forall|y: u8| (#[trigger] byte_tokens@[y as int])@ == tokens_of_byte(
                    vocab,
                    i + 1,
                    y,
                ) by {
                    assert(tokens[y as int]@ == tokens_of_byte(vocab, i as int, y));
                    if y != x {
                        assert(seq![y][0] != seq![x][0]);
                    }
                }
                assert forall|y: u8| #[trigger] byte_lut@[y as int] == first_or_none(
                    tokens_of_byte(vocab, i + 1, y),
                ) by {
                    assert(lut[y as int] == first_or_none(tokens_of_byte(vocab, i as int, y)));
                    if y != x {
                        assert(seq![y][0] != seq![x][0]);
                    }
                }
            }
        } else {
            if len <= MAX_CACHED_TOKEN_LEN {
                maps::bytes_map_insert(&mut token_cache, to_vec(bytes), i as u32);
            }
            proof {
                assert forall|y: u8| (#[trigger] byte_tokens@[y as int])@ == tokens_of_byte(
                    vocab,
                    i + 1,
                    y,
                ) by {
                    assert(seq![y].len() != t.len());
                }
                assert forall|y: u8| #[trigger] byte_lut@[y as int] == first_or_none(
                    tokens_of_byte(vocab, i + 1, y),
                ) by {
                    assert(seq![y].len() != t.len());
                }
            }
        }
        proof {
            lemma_caches_push(
                before,
                maps::bytes_map(token_cache),
                vocab.subrange(0, i as int),
                t,
            );
            assert(vocab.subrange(0, i as int).push(t) =~= vocab.subrange(0, i + 1));
        }
        i = i + 1;
    }
    assert(vocab.subrange(0, vocab.len() as int) =~= vocab);
    Lookups { byte_lut, token_cache, token_lengths, byte_tokens }
}

/// The tokens of a byte are among those that were looked at.
proof fn lemma_ids_below(vocab: Seq<Seq<u8>>, n: int, x: u8)
    requires
        0 <= n < u32::MAX,
    ensures
        forall|j: int|
            0 <= j < tokens_of_byte(vocab, n, x).len() ==> (#[trigger] tokens_of_byte(
                vocab,
                n,
                x,
            )[j]) < n,
    decreases n,
{
    if n > 0 {
        lemma_ids_below(vocab, n - 1, x);
        let before = tokens_of_byte(vocab, n - 1, x);
        let all = tokens_of_byte(vocab, n, x);
        assert forall|j: int| 0 <= j < all.len() implies (#[trigger] all[j]) < n by {
            if j < before.len() {
                assert(all[j] == before[j]);
            }
        }
    }
}

// ---- bytes with several tokens ----

/// `x` among ids in ascending order, behind those that are equal.
pub open spec fn insert_id(s: Seq<TokenId>, x: TokenId) -> Seq<TokenId>
    decreases s.len(),
{
    if s.len() == 0 || s.last() <= x {
        s.push(x)
    } else {
        insert_id(s.drop_last(), x).push(s.last())
    }
}

/// Ids with those of `more` among them, in ascending order.
pub open spec fn insert_ids(s: Seq<TokenId>, more: Seq<TokenId>) -> Seq<TokenId>
    decreases more.len(),
{
    if more.len() == 0 {
        s
    } else {
        insert_id(insert_ids(s, more.drop_last()), more.last())
    }
}

/// The single-byte tokens of the first `n` bytes, in ascending order.
pub open spec fn single_bytes(byte_tokens: Seq<Seq<TokenId>>, n: int) -> Seq<TokenId>
    decreases n,
{
    if n <= 0 {
        seq![]
    } else {
        insert_ids(single_bytes(byte_tokens, n - 1), byte_tokens[n - 1])
    }
}

/// How many ids from the place `i` on lie less than `limit`, up to the first
/// that does not.
pub open spec fn below_from(ids: Seq<TokenId>, i: int, limit: int) -> int
    decreases ids.len() - i,
{
    if 0 <= i < ids.len() && ids[i] < limit {
        1 + below_from(ids, i + 1, limit)
    } else {
        0
    }
}

/// How many ids lie in the window that starts with the one at place `i`.
pub open spec fn density(ids: Seq<TokenId>, i: int) -> int {
    below_from(ids, i, ids[i] + FALLBACK_CLUSTER_WINDOW)
}

/// The place among the first `n` whose window is the densest, and the first of
/// several; none where no window is dense enough.
pub open spec fn densest(ids: Seq<TokenId>, n: int) -> Option<int>
    decreases n,
{
    if n <= 0 {
        None
    } else {
        let best = densest(ids, n - 1);
        let c = density(ids, n - 1);
        let beaten = match best {
            Some(b) => density(ids, b),
            None => 0,
        };
        if c >= FALLBACK_CLUSTER_MIN_DENSITY && c > beaten {
            Some(n - 1)
        } else {
            best
        }
    }
}

/// Where windows of enough ids can start.
pub open spec fn window_starts(n: int) -> int {
    if n >= FALLBACK_CLUSTER_MIN_DENSITY {
        n - FALLBACK_CLUSTER_MIN_DENSITY
    } else {
        0
    }
}

/// The byte-fallback cluster among single-byte tokens: its place and its length.
pub open spec fn cluster(ids: Seq<TokenId>) -> Option<(int, int)> {
    if ids.len() < FALLBACK_MIN_TOKENS {
        None
    } else {
        match densest(ids, window_starts(ids.len() as int)) {
            Some(k) => Some((k, density(ids, k))),
            None => None,
        }
    }
}

/// The token is one of the byte-fallback cluster.
pub open spec fn is_fallback(ids: Seq<TokenId>, t: TokenId) -> bool {
    match cluster(ids) {
        Some((k, n)) => exists|j: int| k <= j < k + n && #[trigger] ids[j] == t,
        None => false,
    }
}

/// The token is one that a merge joins.
pub open spec fn is_operand(merges: Seq<(TokenId, TokenId, TokenId)>, t: TokenId) -> bool {
    exists|i: int|
        0 <= i < merges.len() && ((#[trigger] merges[i]).0 == t || merges[i].1 == t)
}

/// The token of a byte, chosen from `ids` and `best`: a merge operand before
/// one that is none, then one outside of the fallback cluster before one in it.
pub open spec fn chosen(
    merges: Seq<(TokenId, TokenId, TokenId)>,
    single: Seq<TokenId>,
    ids: Seq<TokenId>,
    best: TokenId,
) -> TokenId
    decreases ids.len(),
{
    if ids.len() == 0 {
        best
    } else {
        let b = chosen(merges, single, ids.drop_last(), best);
        let t = ids.last();
        if is_operand(merges, t) && !is_operand(merges, b) {
            t
        } else if !is_fallback(single, t) && is_fallback(single, b) && !is_operand(merges, b) {
            t
        } else {
            b
        }
    }
}

/// Some byte has several tokens.
pub open spec fn any_collision(byte_tokens: Seq<Seq<TokenId>>) -> bool {
    exists|x: int| 0 <= x < byte_tokens.len() && (#[trigger] byte_tokens[x]).len() > 1
}

/// The token of a byte after collisions have been mended.
pub open spec fn mended(
    merges: Seq<(TokenId, TokenId, TokenId)>,
    byte_tokens: Seq<Seq<TokenId>>,
    lut: Seq<TokenId>,
    x: int,
) -> TokenId {
    if byte_tokens[x].len() <= 1 {
        lut[x]
    } else {
        chosen(merges, single_bytes(byte_tokens, 256), byte_tokens[x], lut[x])
    }
}

/// The cache after the collisions of the first `n` bytes have been mended.
pub open spec fn mended_cache(
    m: Map<Seq<u8>, TokenId>,
    merges: Seq<(TokenId, TokenId, TokenId)>,
    byte_tokens: Seq<Seq<TokenId>>,
    lut: Seq<TokenId>,
    n: int,
) -> Map<Seq<u8>, TokenId>
    decreases n,
{
    if n <= 0 {
        m
    } else {
        let before = mended_cache(m, merges, byte_tokens, lut, n - 1);
        let t = mended(merges, byte_tokens, lut, n - 1);
        if t != lut[n - 1] {
            before.insert(seq![(n - 1) as u8], t)
        } else {
            before
        }
    }
}

/// The ids of vectors.
pub open spec fn id_views(v: Seq<Vec<TokenId>>) -> Seq<Seq<TokenId>> {
    Seq::new(v.len(), |i: int| v[i]@)
}

/// Windows that start at these ids have room.
pub open spec fn windows_fit(byte_tokens: Seq<Seq<TokenId>>) -> bool {
    forall|x: int, j: int|
        0 <= x < byte_tokens.len() && 0 <= j < byte_tokens[x].len() ==> #[trigger] byte_tokens[x][j]
            + FALLBACK_CLUSTER_WINDOW <= u32::MAX
}

spec fn all_fit(ids: Seq<TokenId>) -> bool {
    forall|j: int| 0 <= j < ids.len() ==> #[trigger] ids[j] + FALLBACK_CLUSTER_WINDOW <= u32::MAX
}

/// Put an id among ids in ascending order.
fn push_sorted(out: &mut Vec<TokenId>, x: TokenId)
    requires
        all_fit(old(out)@),
        x + FALLBACK_CLUSTER_WINDOW <= u32::MAX,
    ensures
        final(out)@ == insert_id(old(out)@, x),
        all_fit(final(out)@),
    decreases old(out)@.len(),
{
    let n: usize = out.len();
    if n == 0 || out[n - 1] <= x {
        out.push(x);
        proof {
            assert forall|j: int| 0 <= j < out@.len() implies #[trigger] out@[j]
                + FALLBACK_CLUSTER_WINDOW <= u32::MAX by {
                if j < n {
                    assert(out@[j] == old(out)@[j]);
                }
            }
        }
    } else {
        let last = out[n - 1];
        let ghost before = out@;
        assert(before.last() + FALLBACK_CLUSTER_WINDOW <= u32::MAX);
        out.pop();
        proof {
            assert(out@ =~= before.drop_last());
            assert forall|j: int| 0 <= j < out@.len() implies #[trigger] out@[j]
                + FALLBACK_CLUSTER_WINDOW <= u32::MAX by {
                assert(out@[j] == before[j]);
            }
        }
        push_sorted(out, x);
        let ghost mid = out@;
        out.push(last);
        proof {
            assert forall|j: int| 0 <= j < out@.len() implies #[trigger] out@[j]
                + FALLBACK_CLUSTER_WINDOW <= u32::MAX by {
                if j < mid.len() {
                    assert(out@[j] == mid[j]);
                }
            }
        }
    }
}

/// The single-byte tokens in ascending order.
fn sorted_single_bytes(byte_tokens: &[Vec<TokenId>]) -> (r: Vec<TokenId>)
    requires
        windows_fit(id_views(byte_tokens@)),
    ensures
        r@ == single_bytes(id_views(byte_tokens@), byte_tokens@.len() as int),
        all_fit(r@),
{
    let ghost views = id_views(byte_tokens@);
    let mut out: Vec<TokenId> = Vec::new();
    let mut x: usize = 0;
    while x < byte_tokens.len()
        invariant
            x <= byte_tokens.len(),
            views == id_views(byte_tokens@),
            windows_fit(views),
            out@ == single_bytes(views, x as int),
            all_fit(out@),
        decreases byte_tokens.len() - x,
    {
        let ids = byte_tokens[x].as_slice();
        let ghost before = out@;
        assert(ids@ == views[x as int]);
        let mut j: usize = 0;
        assert(ids@.subrange(0, 0) =~= seq![]);
        while j < ids.len()
            invariant
                j <= ids.len(),
                x < byte_tokens@.len(),
                views == id_views(byte_tokens@),
                ids@ == views[x as int],
                windows_fit(views),
                out@ == insert_ids(before, ids@.subrange(0, j as int)),
                all_fit(out@),
            decreases ids.len() - j,
        {
            assert(views[x as int][j as int] + FALLBACK_CLUSTER_WINDOW <= u32::MAX);
            push_sorted(&mut out, ids[j]);
            proof {
                let s = ids@.subrange(0, j + 1);
                assert(s.drop_last() =~= ids@.subrange(0, j as int));
                assert(s.last() == ids@[j as int]);
            }
            j = j + 1;
        }
        assert(ids@.subrange(0, ids@.len() as int) =~= ids@);
        x = x + 1;
    }
    out
}

/// How many ids lie in the window that starts with the one at place `i`.
fn window_len(ids: &[TokenId], i: usize) -> (n: usize)
    requires
        i < ids@.len(),
        all_fit(ids@),
    ensures
        n == density(ids@, i as int),
        i + n <= ids@.len(),
{
    assert(ids@[i as int] + FALLBACK_CLUSTER_WINDOW <= u32::MAX);
    let limit: u32 = ids[i] + FALLBACK_CLUSTER_WINDOW;
    let mut n: usize = 0;
    let mut j: usize = i;
    while j < ids.len() && ids[j] < limit
        invariant
            i <= j <= ids@.len(),
            n == j - i,
            n + below_from(ids@, j as int, limit as int) == below_from(
                ids@,
                i as int,
                limit as int,
            ),
        decreases ids.len() - j,
    {
        n = n + 1;
        j = j + 1;
    }
    n
}

/// Find the byte-fallback cluster.
fn find_cluster(ids: &[TokenId]) -> (r: Option<(usize, usize)>)
    requires
        all_fit(ids@),
    ensures
        match r {
            Some((k, n)) => cluster(ids@) == Some((k as int, n as int)) && k + n <= ids@.len(),
            None => cluster(ids@) is None,
        },
{
    if ids.len() < FALLBACK_MIN_TOKENS {
        return None;
    }
    let starts: usize = ids.len() - FALLBACK_CLUSTER_MIN_DENSITY;
    let mut best: Option<usize> = None;
    let mut best_density: usize = 0;
    let mut i: usize = 0;
    while i < starts
        invariant
            i <= starts,
            starts == window_starts(ids@.len() as int),
            starts <= ids@.len(),
            all_fit(ids@),
            match best {
                Some(k) => densest(ids@, i as int) == Some(k as int) && best_density == density(
                    ids@,
                    k as int,
                ) && k + best_density <= ids@.len(),
                None => densest(ids@, i as int) is None && best_density == 0,
            },
        decreases starts - i,
    {
        let c = window_len(ids, i);
        if c > best_density && c >= FALLBACK_CLUSTER_MIN_DENSITY {
            best_density = c;
            best = Some(i);
        }
        i = i + 1;
    }
    match best {
        Some(k) => Some((k, best_density)),
        None => None,
    }
}

/// Is the id among those of a stretch of ids?
fn in_stretch(ids: &[TokenId], at: Option<(usize, usize)>, t: TokenId) -> (r: bool)
    requires
        match at {
            Some((k, n)) => cluster(ids@) == Some((k as int, n as int)) && k + n <= ids@.len(),
            None => cluster(ids@) is None,
        },
    ensures
        r == is_fallback(ids@, t),
{
    match at {
        Some((k, n)) => {
            let len: usize = ids.len();
            assert(k + n <= len);
            let mut j: usize = k;
            let end: usize = k + n;
            while j < end
                invariant
                    cluster(ids@) == Some((k as int, n as int)),
                    k <= j <= end,
                    end == k + n,
                    end <= ids@.len(),
                    forall|i: int| k <= i < j ==> #[trigger] ids@[i] != t,
                decreases end - j,
            {
                if ids[j] == t {
                    return true;
                }
                j = j + 1;
            }
            false
        },
        None => false,
    }
}

/// The tokens that merges join.
fn operands(merges: &[(TokenId, TokenId, TokenId)]) -> (m: foldhash::HashMap<u64, TokenId>)
    ensures
        forall|t: u32| #[trigger]
            maps::pair_map(m).contains_key(t as u64) == is_operand(merges@, t),
{
    let mut m = maps::new_pair_map();
    let mut i: usize = 0;
    while i < merges.len()
        invariant
            i <= merges.len(),
            forall|t: u32| #[trigger]
                maps::pair_map(m).contains_key(t as u64) == exists|j: int|
                    0 <= j < i && ((#[trigger] merges@[j]).0 == t || merges@[j].1 == t),
        decreases merges.len() - i,
    {
        let ghost before = maps::pair_map(m);
        let (left, right, _) = merges[i];
        maps::pair_map_insert(&mut m, left as u64, left);
        maps::pair_map_insert(&mut m, right as u64, right);
        proof {
            assert forall|t: u32| #[trigger]
                maps::pair_map(m).contains_key(t as u64) == exists|j: int|
                    0 <= j < i + 1 && ((#[trigger] merges@[j]).0 == t || merges@[j].1 == t) by {
                assert(before.contains_key(t as u64) == exists|j: int|
                    0 <= j < i && ((#[trigger] merges@[j]).0 == t || merges@[j].1 == t));
                assert(merges@[i as int].0 == left && merges@[i as int].1 == right);
            }
        }
        i = i + 1;
    }
    m
}

/// Fix byte_lut and token_cache for SentencePiece models with byte-fallback
/// collisions: where several tokens are the same byte, merge rules reference
/// the real token, not the byte-fallback.
pub fn fix_byte_fallback_collisions(
    byte_lut: &mut Vec<TokenId>,
    token_cache: &mut foldhash::HashMap<Vec<u8>, TokenId>,
    merges: &[(TokenId, TokenId, TokenId)],
    byte_tokens: &[Vec<TokenId>],
)
    requires
        old(byte_lut)@.len() == 256,
        byte_tokens@.len() == 256,
        windows_fit(id_views(byte_tokens@)),
    ensures
        final(byte_lut)@.len() == 256,
        forall|x: int|
            0 <= x < 256 ==> #[trigger] final(byte_lut)@[x] == mended(
                merges@,
                id_views(byte_tokens@),
                old(byte_lut)@,
                x,
            ),
        maps::bytes_map(*final(token_cache)) == mended_cache(
            maps::bytes_map(*old(token_cache)),
            merges@,
            id_views(byte_tokens@),
            old(byte_lut)@,
            256,
        ),
{
    let ghost views = id_views(byte_tokens@);
    let ghost lut = byte_lut@;
    let ghost cache = maps::bytes_map(*token_cache);
    let ghost single = single_bytes(views, 256);
    let ids = sorted_single_bytes(byte_tokens);
    let at = find_cluster(ids.as_slice());
    let ops = operands(merges);
    let mut x: usize = 0;
    while x < 256
        invariant
            x <= 256,
            byte_lut@.len() == 256,
            lut.len() == 256,
            byte_tokens@.len() == 256,
            views == id_views(byte_tokens@),
            single == single_bytes(views, 256),
            ids@ == single,
            match at {
                Some((k, n)) => cluster(single) == Some((k as int, n as int)) && k + n
                    <= single.len(),
                None => cluster(single) is None,
            },
            forall|t: u32| #[trigger]
                maps::pair_map(ops).contains_key(t as u64) == is_operand(merges@, t),
            forall|y: int|
                0 <= y < x ==> #[trigger] byte_lut@[y] == mended(merges@, views, lut, y),
            forall|y: int| x <= y < 256 ==> #[trigger] byte_lut@[y] == lut[y],
            maps::bytes_map(*token_cache) == mended_cache(cache, merges@, views, lut, x as int),
        decreases 256 - x,
    {
        let mine = byte_tokens[x].as_slice();
        assert(mine@ == views[x as int]);
        assert(byte_lut@[x as int] == lut[x as int]);
        if mine.len() > 1 {
            let mut best: TokenId = byte_lut[x];
            let mut j: usize = 0;
            assert(mine@.subrange(0, 0) =~= seq![]);
            while j < mine.len()
                invariant
                    j <= mine.len(),
                    x < 256,
                    lut.len() == 256,
                    single == single_bytes(views, 256),
                    ids@ == single,
                    match at {
                        Some((k, n)) => cluster(single) == Some((k as int, n as int)) && k + n
                            <= single.len(),
                        None => cluster(single) is None,
                    },
                    forall|t: u32| #[trigger]
                        maps::pair_map(ops).contains_key(t as u64) == is_operand(merges@, t),
                    best == chosen(
                        merges@,
                        single,
                        mine@.subrange(0, j as int),
                        lut[x as int],
                    ),
                decreases mine.len() - j,
            {
                let t: TokenId = mine[j];
                proof {
                    let s = mine@.subrange(0, j + 1);
                    assert(s.drop_last() =~= mine@.subrange(0, j as int));
                    assert(s.last() == t);
                    assert(maps::pair_map(ops).contains_key(t as u64) == is_operand(merges@, t));
                    assert(maps::pair_map(ops).contains_key(best as u64) == is_operand(
                        merges@,
                        best,
                    ));
                }
                let t_joins = maps::pair_map_get(&ops, t as u64).is_some();
                let best_joins = maps::pair_map_get(&ops, best as u64).is_some();
                if t_joins && !best_joins {
                    best = t;
                } else if !in_stretch(ids.as_slice(), at, t) && in_stretch(
                    ids.as_slice(),
                    at,
                    best,
                ) && !best_joins {
                    best = t;
                }
                j = j + 1;
            }
            assert(mine@.subrange(0, mine@.len() as int) =~= mine@);
            if best != byte_lut[x] {
                byte_lut.set(x, best);
                let mut key: Vec<u8> = Vec::new();
                key.push(x as u8);
                assert(key@ =~= seq![x as u8]);
                maps::bytes_map_insert(token_cache, key, best);
            }
        }
        x = x + 1;
    }
}

/// Where no byte has several tokens, nothing is mended.
pub proof fn law_no_collision(
    m: Map<Seq<u8>, TokenId>,
    merges: Seq<(TokenId, TokenId, TokenId)>,
    byte_tokens: Seq<Seq<TokenId>>,
    lut: Seq<TokenId>,
    n: int,
)
    requires
        !any_collision(byte_tokens),
        0 <= n <= byte_tokens.len(),
    ensures
        mended_cache(m, merges, byte_tokens, lut, n) == m,
        forall|x: int| 0 <= x < n ==> #[trigger] mended(merges, byte_tokens, lut, x) == lut[x],
    decreases n,
{
    if n > 0 {
        law_no_collision(m, merges, byte_tokens, lut, n - 1);
        assert(byte_tokens[n - 1].len() <= 1);
    }
}

} // verus!
