//! A hash of source files, to tell builds apart.
use vstd::prelude::*;

verus! {

/// Where the hash starts.
pub const FNV_OFFSET: u64 = 0xcbf2_9ce4_8422_2325;

/// What the hash is multiplied with at each step.
pub const FNV_PRIME: u64 = 0x0000_0100_0000_01b3;

/// FNV-1a over the first `n` bytes.
pub open spec fn fnv1a(hash: u64, b: Seq<u8>, n: int) -> u64
    decreases n,
{
    if n <= 0 {
        hash
    } else {
        (fnv1a(hash, b, n - 1) ^ (b[n - 1] as u64)).wrapping_mul(FNV_PRIME)
    }
}

/// Take bytes into a hash.
pub fn fnv1a_update(hash: u64, b: &[u8]) -> (r: u64)
    ensures
        r == fnv1a(hash, b@, b@.len() as int),
{
    let mut h: u64 = hash;
    let mut i: usize = 0;
    while i < b.len()
        invariant
            i <= b@.len(),
            h == fnv1a(hash, b@, i as int),
        decreases b.len() - i,
    {
        h = (h ^ (b[i] as u64)).wrapping_mul(FNV_PRIME);
        i = i + 1;
    }
    h
}

/// Taking in bytes in two parts is the same as taking them in at once.
pub proof fn law_fnv1a_in_parts(hash: u64, a: Seq<u8>, b: Seq<u8>, n: int)
    requires
        0 <= n <= b.len(),
    ensures
        fnv1a(hash, a + b, a.len() + n) == fnv1a(fnv1a(hash, a, a.len() as int), b, n),
    decreases n,
{
    if n > 0 {
        law_fnv1a_in_parts(hash, a, b, n - 1);
    } else {
        lemma_prefix(hash, a, b, a.len() as int);
    }
}

proof fn lemma_prefix(hash: u64, a: Seq<u8>, b: Seq<u8>, n: int)
    requires
        0 <= n <= a.len(),
    ensures
        fnv1a(hash, a + b, n) == fnv1a(hash, a, n),
    decreases n,
{
    if n > 0 {
        lemma_prefix(hash, a, b, n - 1);
    }
}

} // verus!
