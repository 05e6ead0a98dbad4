//! Long-lived worker caches: which of them a batch worker gets.
//!
//! A cache holds the tokens of pieces for one tokenizer, whose generation it is
//! tagged with. A worker of another generation gets it cleared.
use vstd::prelude::*;

verus! {

/// A place for a cache, as a worker finds it.
#[derive(Clone, Copy, Debug, PartialEq, Eq, Structural)]
pub struct SlotState {
    /// No other worker holds it.
    pub free: bool,
    /// It has a cache.
    pub filled: bool,
    /// The generation of the tokenizer whose entries the cache holds.
    pub generation: u64,
}

/// What a worker does to get a cache.
#[derive(Clone, Copy, Debug, PartialEq, Eq, Structural)]
pub enum Lease {
    /// Take the cache of this slot as it is.
    Warm(usize),
    /// Put a new cache into this slot.
    Empty(usize),
    /// Clear the cache of this slot.
    Stale(usize),
    /// Make a cache of its own.
    Private,
}

/// The slot holds entries of this generation.
pub open spec fn is_warm(s: SlotState, generation: u64) -> bool {
    s.free && s.filled && s.generation == generation
}

/// The first slot from `i` on that is warm.
pub open spec fn first_warm(v: Seq<SlotState>, generation: u64, i: int) -> Option<int>
    decreases v.len() - i,
{
    if i < 0 || i >= v.len() {
        None
    } else if is_warm(v[i], generation) {
        Some(i)
    } else {
        first_warm(v, generation, i + 1)
    }
}

/// The first slot from `i` on that is free, filled or not.
pub open spec fn first_free(v: Seq<SlotState>, filled: bool, i: int) -> Option<int>
    decreases v.len() - i,
{
    if i < 0 || i >= v.len() {
        None
    } else if v[i].free && v[i].filled == filled {
        Some(i)
    } else {
        first_free(v, filled, i + 1)
    }
}

/// The lease of a worker: a warm slot, else an empty one, else a stale one.
pub open spec fn lease(v: Seq<SlotState>, generation: u64) -> Lease {
    match first_warm(v, generation, 0) {
        Some(i) => Lease::Warm(i as usize),
        None => match first_free(v, false, 0) {
            Some(i) => Lease::Empty(i as usize),
            None => match first_free(v, true, 0) {
                Some(i) => Lease::Stale(i as usize),
                None => Lease::Private,
            },
        },
    }
}

/// Choose the cache for a worker of a generation.
pub fn checkout(v: &[SlotState], generation: u64) -> (r: Lease)
    ensures
        r == lease(v@, generation),
{
    let mut i: usize = 0;
    while i < v.len()
        invariant
            i <= v@.len(),
            first_warm(v@, generation, 0) == first_warm(v@, generation, i as int),
        decreases v.len() - i,
    {
        if v[i].free && v[i].filled && v[i].generation == generation {
            return Lease::Warm(i);
        }
        i = i + 1;
    }
    let mut stale: Option<usize> = None;
    let mut k: usize = 0;
    while k < v.len()
        invariant
            k <= v@.len(),
            first_warm(v@, generation, 0) is None,
            first_free(v@, false, 0) == first_free(v@, false, k as int),
            match stale {
                Some(s) => first_free(v@, true, 0) == Some(s as int),
                None => first_free(v@, true, 0) == first_free(v@, true, k as int),
            },
        decreases v.len() - k,
    {
        if v[k].free {
            if !v[k].filled {
                return Lease::Empty(k);
            }
            if stale.is_none() {
                stale = Some(k);
            }
        }
        k = k + 1;
    }
    match stale {
        Some(s) => Lease::Stale(s),
        None => Lease::Private,
    }
}

/// A cache that is taken as it is holds entries of the worker's generation,
/// and no slot that another worker holds is taken.
pub proof fn law_leases_are_sound(v: Seq<SlotState>, generation: u64)
    requires
        v.len() <= usize::MAX,
    ensures
        match lease(v, generation) {
            Lease::Warm(i) => i < v.len() && is_warm(v[i as int], generation),
            Lease::Empty(i) => i < v.len() && v[i as int].free && !v[i as int].filled,
            Lease::Stale(i) => i < v.len() && v[i as int].free && v[i as int].filled
                && v[i as int].generation != generation,
            Lease::Private => forall|i: int| 0 <= i < v.len() ==> !(#[trigger] v[i]).free,
        },
{
    lemma_first_warm(v, generation, 0);
    lemma_first_free(v, false, 0);
    lemma_first_free(v, true, 0);
}

proof fn lemma_first_warm(v: Seq<SlotState>, generation: u64, i: int)
    requires
        0 <= i <= v.len(),
    ensures
        match first_warm(v, generation, i) {
            Some(k) => i <= k < v.len() && is_warm(v[k], generation),
            None => forall|k: int| i <= k < v.len() ==> !is_warm(#[trigger] v[k], generation),
        },
    decreases v.len() - i,
{
    if i < v.len() {
        lemma_first_warm(v, generation, i + 1);
    }
}

proof fn lemma_first_free(v: Seq<SlotState>, filled: bool, i: int)
    requires
        0 <= i <= v.len(),
    ensures
        match first_free(v, filled, i) {
            Some(k) => i <= k < v.len() && v[k].free && v[k].filled == filled,
            None => forall|k: int|
                i <= k < v.len() ==> !((#[trigger] v[k]).free && v[k].filled == filled),
        },
    decreases v.len() - i,
{
    if i < v.len() {
        lemma_first_free(v, filled, i + 1);
    }
}

} // verus!
