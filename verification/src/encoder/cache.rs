//! Per-thread cache of pretoken bytes and their encoded token sequence.
use crate::types::TokenId;
use vstd::arithmetic::power2::*;
use vstd::bits::*;
use vstd::bytes::*;
use vstd::prelude::*;
use vstd::slice::*;

verus! {

/// The longest key that the cache takes.
pub const CACHE_KEY_MAX: usize = 15;

/// The default exponent of the number of entries.
pub const CACHE_BITS_DEFAULT: u32 = 16;

/// How many entries, from the home slot on, a key may stand in.
pub const CACHE_PROBES: usize = 4;

/// The longest token sequence that the cache takes.
pub const CACHE_MAX_TOKENS: usize = 3;

/// One entry: a key block, and the tokens of the key. An entry whose key block
/// starts with 0 is empty.
#[derive(Clone, Copy)]
struct CacheEntry {
    key: [u8; 16],
    toks: [TokenId; 3],
    ntok: u32,
}

/// Open-addressing table of pretoken bytes and their tokens: a 16-byte key
/// block (length and bytes) plus up to 3 inline token ids. Collisions beyond
/// the probe window overwrite the home slot.
pub struct PretokenCache {
    entries: Vec<CacheEntry>,
    mask: usize,
}

/// The key block of a key: its length, its bytes, and zeros up to 16 bytes.
pub open spec fn key_block_of(b: Seq<u8>) -> Seq<u8> {
    Seq::new(
        16,
        |i: int|
            if i == 0 {
                b.len() as u8
            } else if i <= b.len() {
                b[i - 1]
            } else {
                0
            },
    )
}

/// A key that the cache takes.
pub open spec fn is_key(b: Seq<u8>) -> bool {
    0 < b.len() <= CACHE_KEY_MAX
}

/// Tokens that the cache takes.
pub open spec fn is_value(t: Seq<TokenId>) -> bool {
    0 < t.len() <= CACHE_MAX_TOKENS
}

/// Different keys have different blocks.
proof fn lemma_key_block_injective(a: Seq<u8>, b: Seq<u8>)
    requires
        is_key(a),
        is_key(b),
        key_block_of(a) == key_block_of(b),
    ensures
        a == b,
{
    assert(key_block_of(a)[0] == a.len() as u8 && key_block_of(b)[0] == b.len() as u8);
    assert(a.len() == b.len());
    assert forall|i: int| 0 <= i < a.len() implies a[i] == b[i] by {
        assert(key_block_of(a)[i + 1] == a[i] && key_block_of(b)[i + 1] == b[i]);
    }
    assert(a =~= b);
}

/// The hash of a key block.
pub open spec fn block_hash(k: Seq<u8>) -> u64 {
    let a = spec_u64_from_le_bytes(k.subrange(0, 8));
    let b = spec_u64_from_le_bytes(k.subrange(8, 16));
    let h = (a ^ 0x9E37_79B9_7F4A_7C15).wrapping_mul(0xA076_1D64_78BD_642F) ^ b.wrapping_mul(
        0xE703_7ED1_A0B4_28DB,
    );
    h ^ (h >> 32)
}

proof fn lemma_and_le(x: u64, m: u64)
    by (bit_vector)
    ensures
        x & m <= m,
{
}

/// The slot after `i` in a table of `len` slots.
pub open spec fn next_slot(i: int, len: int) -> int {
    if i + 1 >= len {
        0
    } else {
        i + 1
    }
}

/// A table of `2^bits` slots has a size that a shift gives.
proof fn lemma_table_size(bits: u32)
    requires
        bits <= 24,
    ensures
        1 <= 1u64 << bits <= 0x100_0000,
        1u64 << bits == pow2(bits as nat),
{
    assert(1 <= 1u64 << bits <= 0x100_0000) by (bit_vector)
        requires
            bits <= 24,
    ;
    lemma_u64_pow2_no_overflow(bits as nat);
    lemma_u64_shl_is_mul(1, bits as u64);
}

impl CacheEntry {
    spec fn wf(&self) -> bool {
        self.key@[0] != 0 ==> 0 < self.ntok <= 3
    }

    /// The tokens of the entry.
    spec fn tokens(&self) -> Seq<TokenId> {
        self.toks@.subrange(0, self.ntok as int)
    }
}

/// Are the key blocks equal?
fn same_block(a: &[u8; 16], b: &[u8; 16]) -> (r: bool)
    ensures
        r == (a@ == b@),
{
    let mut i: usize = 0;
    while i < 16
        invariant
            i <= 16,
            forall|j: int| 0 <= j < i ==> a@[j] == b@[j],
        decreases 16 - i,
    {
        if a[i] != b[i] {
            return false;
        }
        i = i + 1;
    }
    assert(a@ =~= b@);
    true
}

/// The tokens that `n` probes from slot `i` on find for the block `k`.
closed spec fn probe(e: Seq<CacheEntry>, k: Seq<u8>, i: int, n: nat) -> Option<Seq<TokenId>>
    decreases n,
{
    if n == 0 {
        None
    } else if e[i].key@ == k {
        Some(e[i].tokens())
    } else if e[i].key@[0] == 0 {
        None
    } else {
        probe(e, k, next_slot(i, e.len() as int), (n - 1) as nat)
    }
}

/// The slot where the block `k` goes: the first of `n` slots from `i` on that
/// is empty or holds `k`, else `home`.
closed spec fn target(e: Seq<CacheEntry>, k: Seq<u8>, i: int, n: nat, home: int) -> int
    decreases n,
{
    if n == 0 {
        home
    } else if e[i].key@[0] == 0 || e[i].key@ == k {
        i
    } else {
        target(e, k, next_slot(i, e.len() as int), (n - 1) as nat, home)
    }
}

/// The home slot of the block `k` in a table of `len` slots.
pub open spec fn home_slot(k: Seq<u8>, len: int) -> int {
    (block_hash(k) & ((len - 1) as u64)) as int
}

/// Slot `x` is one of `n` slots from `i` on, and none before it is empty.
closed spec fn reaches(e: Seq<CacheEntry>, i: int, x: int, n: nat) -> bool
    decreases n,
{
    n > 0 && (i == x || (e[i].key@[0] != 0 && reaches(
        e,
        next_slot(i, e.len() as int),
        x,
        (n - 1) as nat,
    )))
}

/// No key has two entries.
closed spec fn keys_differ(e: Seq<CacheEntry>) -> bool {
    forall|x: int, y: int|
        0 <= x < e.len() && 0 <= y < e.len() && (#[trigger] e[x]).key@[0] != 0 && (#[trigger] e[y]).key@
            == e[x].key@ ==> x == y
}

/// Every entry can be found from the home slot of its key on.
closed spec fn keys_reached(e: Seq<CacheEntry>) -> bool {
    forall|x: int|
        0 <= x < e.len() && (#[trigger] e[x]).key@[0] != 0 ==> reaches(
            e,
            home_slot(e[x].key@, e.len() as int),
            x,
            CACHE_PROBES as nat,
        )
}

/// The tokens that were inserted last for a key.
pub open spec fn latest(log: Seq<(Seq<u8>, Seq<TokenId>)>, b: Seq<u8>) -> Option<Seq<TokenId>>
    decreases log.len(),
{
    if log.len() == 0 {
        None
    } else if log.last().0 == b {
        Some(log.last().1)
    } else {
        latest(log.drop_last(), b)
    }
}

impl PretokenCache {
    /// The table has slots, the entries that are not empty hold tokens, no key
    /// has two of them, and each can be found.
    pub closed spec fn wf(&self) -> bool {
        &&& 0 < self.entries@.len() <= 0x100_0000
        &&& self.mask == self.entries@.len() - 1
        &&& forall|i: int| 0 <= i < self.entries@.len() ==> (#[trigger] self.entries@[i]).wf()
        &&& keys_differ(self.entries@)
        &&& keys_reached(self.entries@)
    }

    /// What the cache finds of a key is what was inserted last for it.
    pub open spec fn remembers(&self, log: Seq<(Seq<u8>, Seq<TokenId>)>) -> bool {
        forall|b: Seq<u8>|
            is_key(b) ==> (#[trigger] self.lookup(b) matches Some(t) ==> latest(log, b) == Some(t))
    }

    /// The number of slots of the table.
    pub closed spec fn slots(&self) -> nat {
        self.entries@.len()
    }

    /// The home slot of a key: the low bits of its hash, as many as the table
    /// has.
    pub open spec fn home(&self, b: Seq<u8>) -> int {
        home_slot(key_block_of(b), self.slots() as int)
    }

    /// The tokens that the cache finds for a key.
    pub closed spec fn lookup(&self, b: Seq<u8>) -> Option<Seq<TokenId>> {
        probe(self.entries@, key_block_of(b), self.home(b), CACHE_PROBES as nat)
    }

    /// Some entry holds these tokens for the key.
    pub closed spec fn contains(&self, b: Seq<u8>, t: Seq<TokenId>) -> bool {
        is_key(b) && exists|i: int|
            0 <= i < self.entries@.len() && #[trigger] self.entries@[i].key@ == key_block_of(b)
                && self.entries@[i].tokens() == t
    }

    /// A cache without entries, of the default size.
    pub fn new() -> (r: Self)
        ensures
            r.wf(),
            r.slots() == pow2(CACHE_BITS_DEFAULT as nat),
            forall|b: Seq<u8>, t: Seq<TokenId>| !r.contains(b, t),
            forall|b: Seq<u8>| is_key(b) ==> #[trigger] r.lookup(b) is None,
            r.remembers(seq![]),
    {
        Self::with_bits(CACHE_BITS_DEFAULT)
    }

    /// A cache without entries, with `2^bits` slots.
    pub fn with_bits(bits: u32) -> (r: Self)
        requires
            10 <= bits <= 24,
        ensures
            r.wf(),
            r.slots() == pow2(bits as nat),
            forall|b: Seq<u8>, t: Seq<TokenId>| !r.contains(b, t),
            forall|b: Seq<u8>| is_key(b) ==> #[trigger] r.lookup(b) is None,
            r.remembers(seq![]),
    {
        proof {
            lemma_table_size(bits);
        }
        let n: usize = (1u64 << bits) as usize;
        let empty = CacheEntry { key: [0u8; 16], toks: [0u32; 3], ntok: 0 };
        let r = PretokenCache { entries: vec![empty; n], mask: n - 1 };
        proof {
            r.lemma_empty();
        }
        r
    }

    /// Where no entry has a key, nothing is found.
    proof fn lemma_empty(&self)
        requires
            self.wf(),
            forall|i: int| 0 <= i < self.entries@.len() ==> (#[trigger] self.entries@[i]).key@[0] == 0,
        ensures
            forall|b: Seq<u8>, t: Seq<TokenId>| !self.contains(b, t),
            forall|b: Seq<u8>| is_key(b) ==> #[trigger] self.lookup(b) is None,
    {
        assert forall|b: Seq<u8>, t: Seq<TokenId>| !self.contains(b, t) by {
            if self.contains(b, t) {
                assert(key_block_of(b)[0] == b.len() as u8);
            }
        }
        assert forall|b: Seq<u8>| is_key(b) implies #[trigger] self.lookup(b) is None by {
            assert(key_block_of(b)[0] == b.len() as u8);
            lemma_and_le(block_hash(key_block_of(b)), self.mask as u64);
            assert(self.entries@[self.home(b)].key@[0] == 0);
        }
    }

    /// Reset every entry to empty (for reuse under a different tokenizer).
    pub fn clear(&mut self)
        requires
            old(self).wf(),
        ensures
            final(self).wf(),
            final(self).slots() == old(self).slots(),
            forall|b: Seq<u8>, t: Seq<TokenId>| !final(self).contains(b, t),
            forall|b: Seq<u8>| is_key(b) ==> #[trigger] final(self).lookup(b) is None,
            final(self).remembers(seq![]),
    {
        let n: usize = self.entries.len();
        let empty = CacheEntry { key: [0u8; 16], toks: [0u32; 3], ntok: 0 };
        self.entries = vec![empty; n];
        proof {
            self.lemma_empty();
        }
    }

    /// The key block of a key.
    fn key_block(bytes: &[u8]) -> (k: [u8; 16])
        requires
            is_key(bytes@),
        ensures
            k@ == key_block_of(bytes@),
    {
        let mut k: [u8; 16] = [0u8; 16];
        k[0] = bytes.len() as u8;
        let mut i: usize = 0;
        while i < bytes.len()
            invariant
                is_key(bytes@),
                i <= bytes.len(),
                k@[0] == bytes@.len() as u8,
                forall|j: int| 0 <= j < i ==> k@[j + 1] == bytes@[j],
                forall|j: int| i < j < 16 ==> k@[j] == 0,
            decreases bytes.len() - i,
        {
            k[i + 1] = bytes[i];
            i = i + 1;
        }
        assert(k@ =~= key_block_of(bytes@));
        k
    }

    /// The home slot of a key block.
    fn slot(&self, k: &[u8; 16]) -> (i: usize)
        requires
            self.wf(),
        ensures
            i as int == (block_hash(k@) & (self.mask as u64)) as int,
            i < self.entries@.len(),
    {
        let a: u64 = u64_from_le_bytes(slice_subrange(k.as_slice(), 0, 8));
        let b: u64 = u64_from_le_bytes(slice_subrange(k.as_slice(), 8, 16));
        let h: u64 = (a ^ 0x9E37_79B9_7F4A_7C15).wrapping_mul(0xA076_1D64_78BD_642F)
            ^ b.wrapping_mul(0xE703_7ED1_A0B4_28DB);
        let m: u64 = self.mask as u64;
        proof {
            lemma_and_le(h ^ (h >> 32), m);
        }
        ((h ^ (h >> 32)) & m) as usize
    }

    /// Look up a piece; on hit, append its tokens to `out` and return true.
    pub fn get(&self, bytes: &[u8], out: &mut Vec<TokenId>) -> (hit: bool)
        requires
            self.wf(),
            is_key(bytes@),
        ensures
            match self.lookup(bytes@) {
                Some(t) => hit && final(out)@ == old(out)@ + t && self.contains(bytes@, t),
                None => !hit && final(out)@ == old(out)@,
            },
    {
        let k = Self::key_block(bytes);
        let mut i: usize = self.slot(&k);
        let mut n: usize = CACHE_PROBES;
        while n > 0
            invariant
                self.wf(),
                is_key(bytes@),
                k@ == key_block_of(bytes@),
                i < self.entries@.len(),
                out@ == old(out)@,
                self.lookup(bytes@) == probe(self.entries@, k@, i as int, n as nat),
            decreases n,
        {
            assert(self.entries@[i as int].wf());
            let e = &self.entries[i];
            if same_block(&e.key, &k) {
                assert(k@[0] == bytes@.len() as u8);
                let found = slice_subrange(e.toks.as_slice(), 0, e.ntok as usize);
                out.extend_from_slice(found);
                assert(out@ =~= old(out)@ + found@);
                return true;
            }
            if e.key[0] == 0 {
                return false;
            }
            i = if i + 1 >= self.entries.len() {
                0
            } else {
                i + 1
            };
            n = n - 1;
        }
        false
    }

    /// Remember the tokens of a piece. A key or a sequence that is too long,
    /// or empty, is not taken.
    pub fn insert(&mut self, bytes: &[u8], toks: &[TokenId])
        requires
            old(self).wf(),
        ensures
            final(self).wf(),
            final(self).slots() == old(self).slots(),
            !(is_key(bytes@) && is_value(toks@)) ==> *final(self) == *old(self),
            is_key(bytes@) && is_value(toks@) ==> final(self).lookup(bytes@) == Some(toks@),
            forall|b: Seq<u8>, t: Seq<TokenId>| #[trigger]
                final(self).contains(b, t) ==> old(self).contains(b, t) || (b == bytes@ && t
                    == toks@),
            forall|b: Seq<u8>|
                is_key(b) && b != bytes@ ==> #[trigger] final(self).lookup(b) == old(self).lookup(b)
                    || final(self).lookup(b) is None,
            forall|b: Seq<u8>, c: Seq<u8>|
                b != bytes@ && c != bytes@ && gives_up(*old(self), *final(self), b) && gives_up(
                    *old(self),
                    *final(self),
                    c,
                ) ==> b == c,
            is_key(bytes@) && old(self).lookup(bytes@) is Some ==> forall|b: Seq<u8>|
                b != bytes@ ==> !gives_up(*old(self), *final(self), b),
            forall|log: Seq<(Seq<u8>, Seq<TokenId>)>| #[trigger]
                old(self).remembers(log) ==> final(self).remembers(
                    if is_key(bytes@) && is_value(toks@) {
                        log.push((bytes@, toks@))
                    } else {
                        log
                    },
                ),
    {
        if bytes.len() == 0 || bytes.len() > CACHE_KEY_MAX || toks.len() == 0 || toks.len()
            > CACHE_MAX_TOKENS {
            return;
        }
        let k = Self::key_block(bytes);
        let home: usize = self.slot(&k);
        let mut i: usize = home;
        let mut at: usize = home;
        let mut n: usize = CACHE_PROBES;
        let mut found = false;
        while n > 0 && !found
            invariant
                self.wf(),
                *self == *old(self),
                k@[0] != 0,
                i < self.entries@.len(),
                at < self.entries@.len(),
                found ==> at as int == target(self.entries@, k@, home as int, 4, home as int),
                !found ==> at == home && target(self.entries@, k@, home as int, 4, home as int)
                    == target(self.entries@, k@, i as int, n as nat, home as int),
            decreases
                    if found {
                        0
                    } else {
                        n
                    },
        {
            let e = &self.entries[i];
            if e.key[0] == 0 || same_block(&e.key, &k) {
                at = i;
                found = true;
            } else {
                i = if i + 1 >= self.entries.len() {
                    0
                } else {
                    i + 1
                };
                n = n - 1;
            }
        }
        let mut e = CacheEntry { key: k, toks: [0u32; 3], ntok: toks.len() as u32 };
        let mut j: usize = 0;
        while j < toks.len()
            invariant
                is_value(toks@),
                j <= toks.len(),
                e.key@ == k@,
                e.ntok == toks.len(),
                forall|x: int| 0 <= x < j ==> e.toks@[x] == toks@[x],
            decreases toks.len() - j,
        {
            e.toks[j] = toks[j];
            j = j + 1;
        }
        assert(e.tokens() =~= toks@);
        let ghost before = self.entries@;
        self.entries.set(at, e);
        proof {
            let after = self.entries@;
            assert(after =~= before.update(at as int, e));
            lemma_probe_after_update(before, k@, home as int, e);
            assert forall|b: Seq<u8>, t: Seq<TokenId>| #[trigger]
                self.contains(b, t) implies old(self).contains(b, t) || (b == bytes@ && t
                == toks@) by {
                let x = choose|x: int|
                    0 <= x < after.len() && #[trigger] after[x].key@ == key_block_of(b)
                        && after[x].tokens() == t;
                if x == at {
                    lemma_key_block_injective(b, bytes@);
                } else {
                    assert(before[x].key@ == key_block_of(b));
                }
            }
            lemma_insert_keeps(before, k@, home as int, e);
            assert forall|b: Seq<u8>|
                is_key(b) && b != bytes@ implies #[trigger] self.lookup(b) == old(self).lookup(b)
                || self.lookup(b) is None by {
                lemma_others_kept(*old(self), *self, bytes@, b, at as int);
            }
            assert forall|b: Seq<u8>, c: Seq<u8>|
                b != bytes@ && c != bytes@ && gives_up(*old(self), *self, b) && gives_up(
                    *old(self),
                    *self,
                    c,
                ) implies b == c by {
                lemma_others_kept(*old(self), *self, bytes@, b, at as int);
                lemma_others_kept(*old(self), *self, bytes@, c, at as int);
                lemma_key_block_injective(b, c);
            }
            if old(self).lookup(bytes@) is Some {
                lemma_probe_found(before, k@, home as int, CACHE_PROBES as nat, home as int);
                assert forall|b: Seq<u8>| b != bytes@ implies !gives_up(*old(self), *self, b) by {
                    if gives_up(*old(self), *self, b) {
                        lemma_others_kept(*old(self), *self, bytes@, b, at as int);
                        lemma_key_block_injective(b, bytes@);
                    }
                }
            }
            assert forall|log: Seq<(Seq<u8>, Seq<TokenId>)>| #[trigger]
                old(self).remembers(log) implies self.remembers(log.push((bytes@, toks@))) by {
                let more = log.push((bytes@, toks@));
                assert(more.drop_last() =~= log);
            }
        }
    }
}

/// The key is found before, and not any more.
pub open spec fn gives_up(before: PretokenCache, after: PretokenCache, b: Seq<u8>) -> bool {
    is_key(b) && before.lookup(b) is Some && after.lookup(b) is None
}

/// What is reached stays reached when more slots are filled.
proof fn lemma_reaches_more(e: Seq<CacheEntry>, f: Seq<CacheEntry>, i: int, x: int, n: nat)
    requires
        e.len() == f.len(),
        0 <= i < e.len(),
        forall|j: int|
            0 <= j < e.len() && (#[trigger] e[j]).key@[0] != 0 ==> f[j].key@[0] != 0,
        reaches(e, i, x, n),
    ensures
        reaches(f, i, x, n),
    decreases n,
{
    if i != x {
        assert(f[i].key@[0] != 0);
        lemma_reaches_more(e, f, next_slot(i, e.len() as int), x, (n - 1) as nat);
    }
}

/// A key that can be reached is found, and is where an insert of it goes.
proof fn lemma_reached_found(e: Seq<CacheEntry>, k: Seq<u8>, i: int, x: int, n: nat, home: int)
    requires
        0 <= i < e.len(),
        0 <= x < e.len(),
        keys_differ(e),
        k[0] != 0,
        e[x].key@ == k,
        reaches(e, i, x, n),
    ensures
        probe(e, k, i, n) == Some(e[x].tokens()),
        target(e, k, i, n, home) == x,
    decreases n,
{
    if i != x {
        assert(e[i].key@ != k) by {
            if e[i].key@ == k {
                assert(e[x].key@[0] != 0 && e[i].key@ == e[x].key@);
            }
        }
        lemma_reached_found(e, k, next_slot(i, e.len() as int), x, (n - 1) as nat, home);
    }
}

/// Where an insert goes is reached, unless it goes to the home slot.
proof fn lemma_target_reached(e: Seq<CacheEntry>, k: Seq<u8>, i: int, n: nat, home: int)
    requires
        0 <= i < e.len(),
    ensures
        has_room(e, k, i, n) ==> reaches(e, i, target(e, k, i, n, home), n),
    decreases n,
{
    if n > 0 && !(e[i].key@[0] == 0 || e[i].key@ == k) {
        lemma_target_reached(e, k, next_slot(i, e.len() as int), (n - 1) as nat, home);
    }
}

/// A key that is found has an entry, and an insert of it goes there.
proof fn lemma_probe_found(e: Seq<CacheEntry>, k: Seq<u8>, i: int, n: nat, home: int)
    requires
        0 <= i < e.len(),
        k[0] != 0,
        probe(e, k, i, n) is Some,
    ensures
        ({
            let t = target(e, k, i, n, home);
            0 <= t < e.len() && e[t].key@ == k && probe(e, k, i, n) == Some(e[t].tokens())
        }),
    decreases n,
{
    if e[i].key@ != k {
        lemma_probe_found(e, k, next_slot(i, e.len() as int), (n - 1) as nat, home);
    }
}

/// An insert keeps keys apart and where they are found.
proof fn lemma_insert_keeps(e: Seq<CacheEntry>, k: Seq<u8>, home: int, new: CacheEntry)
    requires
        0 < e.len(),
        home == home_slot(k, e.len() as int),
        0 <= home < e.len(),
        k[0] != 0,
        new.key@ == k,
        keys_differ(e),
        keys_reached(e),
    ensures
        keys_differ(e.update(target(e, k, home, CACHE_PROBES as nat, home), new)),
        keys_reached(e.update(target(e, k, home, CACHE_PROBES as nat, home), new)),
{
    let t = target(e, k, home, CACHE_PROBES as nat, home);
    let f = e.update(t, new);
    lemma_probe_finds(e, k, home, CACHE_PROBES as nat, home, new);
    assert forall|y: int| 0 <= y < e.len() && (#[trigger] e[y]).key@ == k implies y == t by {
        lemma_reached_found(e, k, home, y, CACHE_PROBES as nat, home);
    }
    assert forall|x: int, y: int|
        0 <= x < f.len() && 0 <= y < f.len() && (#[trigger] f[x]).key@[0] != 0 && (
        #[trigger] f[y]).key@ == f[x].key@ implies x == y by {
        if x == t && y != t {
            assert(e[y].key@ == k);
        } else if y == t && x != t {
            assert(e[x].key@ == k);
        } else if x != t {
            assert(e[x].key@[0] != 0 && e[y].key@ == e[x].key@);
        }
    }
    lemma_target_reached(e, k, home, CACHE_PROBES as nat, home);
    assert forall|x: int| 0 <= x < f.len() && (#[trigger] f[x]).key@[0] != 0 implies reaches(
        f,
        home_slot(f[x].key@, f.len() as int),
        x,
        CACHE_PROBES as nat,
    ) by {
        let h = home_slot(f[x].key@, f.len() as int);
        if x != t || has_room(e, k, home, CACHE_PROBES as nat) {
            lemma_and_le(block_hash(f[x].key@), (e.len() - 1) as u64);
            lemma_reaches_more(e, f, h, x, CACHE_PROBES as nat);
        }
    }
}

/// An insert of one key leaves what is found of another, or gives it up: it
/// then stood where the insert went.
proof fn lemma_others_kept(
    before: PretokenCache,
    after: PretokenCache,
    k: Seq<u8>,
    b: Seq<u8>,
    at: int,
)
    requires
        before.wf(),
        is_key(k),
        is_key(b),
        b != k,
        0 <= at < before.entries@.len(),
        after.entries@.len() == before.entries@.len(),
        after.entries@[at].key@ == key_block_of(k),
        forall|i: int|
            0 <= i < before.entries@.len() && i != at ==> after.entries@[i]
                == #[trigger] before.entries@[i],
        keys_differ(after.entries@),
        keys_reached(after.entries@),
    ensures
        after.lookup(b) == before.lookup(b) || after.lookup(b) is None,
        gives_up(before, after, b) ==> before.entries@[at].key@ == key_block_of(b),
{
    let e = before.entries@;
    let f = after.entries@;
    let kb = key_block_of(b);
    let h = before.home(b);
    let n = CACHE_PROBES as nat;
    assert(kb[0] == b.len() as u8);
    lemma_and_le(block_hash(kb), (e.len() - 1) as u64);
    if after.lookup(b) is Some {
        lemma_probe_found(f, kb, h, n, h);
        let x = target(f, kb, h, n, h);
        if x == at {
            lemma_key_block_injective(b, k);
        }
        assert(e[x].key@ == kb);
        lemma_reached_found(e, kb, h, x, n, h);
    } else if before.lookup(b) is Some {
        lemma_probe_found(e, kb, h, n, h);
        let x = target(e, kb, h, n, h);
        if x != at {
            assert(f[x].key@ == kb);
            lemma_reached_found(f, kb, h, x, n, h);
        }
    }
}

/// One of `n` slots from `i` on is empty or holds the block `k`.
closed spec fn has_room(e: Seq<CacheEntry>, k: Seq<u8>, i: int, n: nat) -> bool
    decreases n,
{
    n > 0 && (e[i].key@[0] == 0 || e[i].key@ == k || has_room(
        e,
        k,
        next_slot(i, e.len() as int),
        (n - 1) as nat,
    ))
}

/// A block that went to its target slot is found from there on.
proof fn lemma_probe_finds(
    e: Seq<CacheEntry>,
    k: Seq<u8>,
    i: int,
    n: nat,
    home: int,
    new: CacheEntry,
)
    requires
        0 <= i < e.len(),
        0 <= home < e.len(),
        new.key@ == k,
    ensures
        0 <= target(e, k, i, n, home) < e.len(),
        !has_room(e, k, i, n) ==> target(e, k, i, n, home) == home,
        has_room(e, k, i, n) ==> {
            let t = target(e, k, i, n, home);
            &&& e[t].key@[0] == 0 || e[t].key@ == k
            &&& probe(e.update(t, new), k, i, n) == Some(new.tokens())
        },
    decreases n,
{
    if n > 0 {
        lemma_probe_finds(e, k, next_slot(i, e.len() as int), (n - 1) as nat, home, new);
    }
}

/// A block that went to its target slot is found from its home slot on.
proof fn lemma_probe_after_update(e: Seq<CacheEntry>, k: Seq<u8>, home: int, new: CacheEntry)
    requires
        0 <= home < e.len(),
        new.key@ == k,
    ensures
        ({
            let t = target(e, k, home, CACHE_PROBES as nat, home);
            &&& 0 <= t < e.len()
            &&& probe(e.update(t, new), k, home, CACHE_PROBES as nat) == Some(new.tokens())
        }),
{
    lemma_probe_finds(e, k, home, CACHE_PROBES as nat, home, new);
}

impl Default for PretokenCache {
    fn default() -> (r: Self)
        ensures
            r.wf(),
            r.slots() == pow2(CACHE_BITS_DEFAULT as nat),
            forall|b: Seq<u8>, t: Seq<TokenId>| !r.contains(b, t),
            forall|b: Seq<u8>| is_key(b) ==> #[trigger] r.lookup(b) is None,
            r.remembers(seq![]),
    {
        Self::new()
    }
}

/// The number that digits are, read from the left.
pub open spec fn decimal(d: Seq<u8>) -> int
    decreases d.len(),
{
    if d.len() == 0 {
        0
    } else {
        10 * decimal(d.drop_last()) + (d.last() - 0x30)
    }
}

/// All bytes are digits, and there is one at least.
pub open spec fn are_digits(d: Seq<u8>) -> bool {
    d.len() > 0 && forall|i: int| 0 <= i < d.len() ==> 0x30 <= #[trigger] d[i] <= 0x39
}

/// The digits of a number, which a plus sign may stand before.
pub open spec fn digits_of(b: Seq<u8>) -> Seq<u8> {
    if b.len() > 0 && b[0] == 0x2B {
        b.subrange(1, b.len() as int)
    } else {
        b
    }
}

/// The exponent of the number of entries that a setting asks for: a number
/// from 10 to 24, or else the default.
pub open spec fn bits_asked(b: Seq<u8>) -> int {
    let d = digits_of(b);
    if are_digits(d) && 10 <= decimal(d) <= 24 {
        decimal(d)
    } else {
        CACHE_BITS_DEFAULT as int
    }
}

/// Table size exponent, by the text of a setting.
pub fn cache_bits(setting: Option<&[u8]>) -> (r: u32)
    ensures
        r == match setting {
            Some(b) => bits_asked(b@),
            None => CACHE_BITS_DEFAULT as int,
        },
        10 <= r <= 24,
{
    let b = match setting {
        Some(b) => b,
        None => return CACHE_BITS_DEFAULT,
    };
    let start: usize = if b.len() > 0 && b[0] == 0x2B {
        1
    } else {
        0
    };
    let d = slice_subrange(b, start, b.len());
    proof {
        assert(d@ =~= digits_of(b@));
    }
    let mut value: u32 = 0;
    let mut i: usize = 0;
    assert(d@.subrange(0, 0) =~= seq![]);
    while i < d.len()
        invariant
            i <= d@.len(),
            setting == Some(b),
            d@ == digits_of(b@),
            value <= 1000,
            forall|k: int| 0 <= k < i ==> 0x30 <= #[trigger] d@[k] <= 0x39,
            value == decimal(d@.subrange(0, i as int)) || (value > 24 && decimal(
                d@.subrange(0, i as int),
            ) > 24),
        decreases d.len() - i,
    {
        let c = d[i];
        if c < 0x30 || c > 0x39 {
            assert(!are_digits(d@));
            return CACHE_BITS_DEFAULT;
        }
        assert(d@.subrange(0, i + 1).drop_last() =~= d@.subrange(0, i as int));
        if value <= 24 {
            value = 10 * value + (c - 0x30) as u32;
        }
        i = i + 1;
    }
    assert(d@.subrange(0, d@.len() as int) =~= d@);
    if d.len() > 0 && 10 <= value && value <= 24 {
        value
    } else {
        CACHE_BITS_DEFAULT
    }
}

} // verus!
