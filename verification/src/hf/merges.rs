//! Vocabulary entries and merges of a tokenizer file.
use crate::bytes::{push_bytes, to_vec};
use crate::hf::json;
use crate::hf::json::{as_number, as_text, Json};
use crate::maps;
use crate::order;
use crate::order::sort_keys;
use crate::text;
use crate::types::TokenId;
use vstd::prelude::*;
use vstd::slice::*;
use vstd::string::*;

verus! {

// ---- the texts of a merge ----

/// The first space from `i` on, or the end.
pub open spec fn space_from(b: Seq<u8>, i: int) -> int
    decreases b.len() - i,
{
    if i < 0 || i >= b.len() {
        b.len() as int
    } else if b[i] == 0x20 {
        i
    } else {
        space_from(b, i + 1)
    }
}

/// The first two of the parts between spaces.
pub open spec fn two_parts(b: Seq<u8>) -> Option<(Seq<u8>, Seq<u8>)> {
    let i = space_from(b, 0);
    if i < b.len() {
        Some((b.subrange(0, i), b.subrange(i + 1, space_from(b, i + 1))))
    } else {
        None
    }
}

/// The bytes of a text.
pub open spec fn bytes_at(j: Json) -> Option<Seq<u8>> {
    match json::text_of(Some(j)) {
        Some(s) => Some(text::utf8(s)),
        None => None,
    }
}

/// The two texts that a merge joins: a list of them, or one text with a space
/// between them.
pub open spec fn merge_texts(m: Json) -> Option<(Seq<u8>, Seq<u8>)> {
    match m {
        Json::List(v) => if v@.len() >= 2 {
            match (bytes_at(v@[0]), bytes_at(v@[1])) {
                (Some(l), Some(r)) => Some((l, r)),
                _ => None,
            }
        } else {
            None
        },
        Json::Text(s) => two_parts(text::utf8(s@)),
        _ => None,
    }
}

/// The first space from `i` on, or the end.
fn find_space(b: &[u8], i: usize) -> (r: usize)
    requires
        i <= b@.len(),
    ensures
        r == space_from(b@, i as int),
        i <= r <= b@.len(),
{
    let mut k: usize = i;
    while k < b.len()
        invariant
            i <= k <= b@.len(),
            space_from(b@, i as int) == space_from(b@, k as int),
        decreases b.len() - k,
    {
        if b[k] == 0x20 {
            return k;
        }
        k = k + 1;
    }
    k
}

/// Views of a pair of slices, if there is one.
pub open spec fn pair_view(p: Option<(&[u8], &[u8])>) -> Option<(Seq<u8>, Seq<u8>)> {
    match p {
        Some(x) => Some((x.0@, x.1@)),
        None => None,
    }
}

/// The two texts that a merge joins.
pub fn merge_pair<'a>(m: &'a Json) -> (r: Option<(&'a [u8], &'a [u8])>)
    ensures
        pair_view(r) == merge_texts(*m),
{
    match m {
        Json::List(v) => {
            if v.len() < 2 {
                return None;
            }
            match (as_text(Some(&v[0])), as_text(Some(&v[1]))) {
                (Some(l), Some(r)) => Some((l.as_bytes(), r.as_bytes())),
                _ => None,
            }
        },
        Json::Text(s) => {
            let b = s.as_str().as_bytes();
            let i: usize = find_space(b, 0);
            if i >= b.len() {
                return None;
            }
            let j: usize = find_space(b, i + 1);
            Some((slice_subrange(b, 0, i), slice_subrange(b, i + 1, j)))
        },
        _ => None,
    }
}

// ---- vocabulary entries ----

/// The last of the first `n` entries with these bytes as its key.
pub open spec fn entry_index(v: Seq<(String, Json)>, n: int, key: Seq<u8>) -> Option<int>
    decreases n,
{
    if n <= 0 {
        None
    } else if text::utf8(v[n - 1].0@) == key {
        Some(n - 1)
    } else {
        entry_index(v, n - 1, key)
    }
}

/// The number of a vocabulary entry.
pub open spec fn entry_number(v: Seq<(String, Json)>, key: Seq<u8>) -> Option<u64> {
    match entry_index(v, v.len() as int, key) {
        Some(i) => json::number_of(Some(v[i].1)),
        None => None,
    }
}

/// An index finds entries by their keys.
pub struct VocabIndex {
    map: foldhash::HashMap<Vec<u8>, TokenId>,
}

impl VocabIndex {
    /// The index is one of the first `n` entries.
    pub closed spec fn indexes(&self, v: Seq<(String, Json)>, n: int) -> bool {
        forall|key: Seq<u8>|
            {
                &&& #[trigger] maps::bytes_map(self.map).contains_key(key) <==> entry_index(
                    v,
                    n,
                    key,
                ) is Some
                &&& maps::bytes_map(self.map).contains_key(key) ==> entry_index(v, n, key) == Some(
                    maps::bytes_map(self.map)[key] as int,
                )
            }
    }

    /// The index of vocabulary entries.
    pub fn new(v: &[(String, Json)]) -> (r: Self)
        requires
            v@.len() <= u32::MAX,
        ensures
            r.indexes(v@, v@.len() as int),
    {
        let mut r = VocabIndex { map: maps::new_bytes_map() };
        let mut i: usize = 0;
        while i < v.len()
            invariant
                i <= v@.len() <= u32::MAX,
                r.indexes(v@, i as int),
            decreases v.len() - i,
        {
            let ghost before = maps::bytes_map(r.map);
            let ghost old_r = r;
            let key = to_vec(v[i].0.as_str().as_bytes());
            maps::bytes_map_insert(&mut r.map, key, i as u32);
            proof {
                assert forall|k: Seq<u8>|
                    {
                        &&& #[trigger] maps::bytes_map(r.map).contains_key(k) <==> entry_index(
                            v@,
                            i + 1,
                            k,
                        ) is Some
                        &&& maps::bytes_map(r.map).contains_key(k) ==> entry_index(v@, i + 1, k)
                            == Some(maps::bytes_map(r.map)[k] as int)
                    } by {
                    assert(before.contains_key(k) <==> entry_index(v@, i as int, k) is Some);
                }
            }
            i = i + 1;
        }
        r
    }

    /// The number of the entry with these bytes as its key.
    pub fn number(&self, v: &[(String, Json)], key: &[u8]) -> (r: Option<u64>)
        requires
            self.indexes(v@, v@.len() as int),
        ensures
            r == entry_number(v@, key@),
    {
        proof {
            lemma_entry_index(v@, v@.len() as int, key@);
        }
        match maps::bytes_map_get(&self.map, key) {
            Some(i) => as_number(Some(&v[i as usize].1)),
            None => None,
        }
    }
}

proof fn lemma_entry_index(v: Seq<(String, Json)>, n: int, key: Seq<u8>)
    requires
        0 <= n <= v.len(),
    ensures
        entry_index(v, n, key) matches Some(i) ==> 0 <= i < n,
    decreases n,
{
    if n > 0 {
        lemma_entry_index(v, n - 1, key);
    }
}

// ---- merges ----

/// The number of base tokens: the number of what the first merge makes, or
/// 256 where that is not known.
pub open spec fn base_count(v: Seq<(String, Json)>, merges: Seq<Json>) -> usize {
    if merges.len() == 0 {
        256
    } else {
        match merge_texts(merges[0]) {
            None => 256,
            Some((l, r)) => match entry_number(v, l + r) {
                Some(id) => id as usize,
                None => 256,
            },
        }
    }
}

/// The number of an entry, or 0.
pub open spec fn number_or_zero(v: Seq<(String, Json)>, key: Seq<u8>) -> usize {
    match entry_number(v, key) {
        Some(n) => n as usize,
        None => 0,
    }
}

/// The `i`th merge joins tokens that are there when its turn comes.
pub open spec fn in_turn(v: Seq<(String, Json)>, merges: Seq<Json>, base: int, i: int) -> bool {
    merge_texts(merges[i]) matches Some((l, r)) ==> number_or_zero(v, l) < base + i
        && number_or_zero(v, r) < base + i
}

/// Every merge joins tokens that are there when its turn comes.
pub open spec fn topological(v: Seq<(String, Json)>, merges: Seq<Json>, base: int) -> bool {
    forall|i: int| 0 <= i < merges.len() ==> #[trigger] in_turn(v, merges, base, i)
}

/// The ids that a merge joins, where both are known.
pub open spec fn merge_ids_of(v: Seq<(String, Json)>, m: Json) -> Option<(TokenId, TokenId)> {
    match merge_texts(m) {
        None => None,
        Some((l, r)) => match (entry_number(v, l), entry_number(v, r)) {
            (Some(a), Some(b)) => Some((a as u32, b as u32)),
            _ => None,
        },
    }
}

/// The ids that the first `n` merges join.
pub open spec fn merge_ids(v: Seq<(String, Json)>, merges: Seq<Json>, n: int) -> Seq<
    (TokenId, TokenId),
>
    decreases n,
{
    if n <= 0 {
        seq![]
    } else {
        match merge_ids_of(v, merges[n - 1]) {
            Some(p) => merge_ids(v, merges, n - 1).push(p),
            None => merge_ids(v, merges, n - 1),
        }
    }
}

/// Detect the number of base tokens by finding the first merge result's id.
pub fn detect_num_base_tokens(
    index: &VocabIndex,
    vocab: &[(String, Json)],
    merges: &[Json],
) -> (r: usize)
    requires
        index.indexes(vocab@, vocab@.len() as int),
    ensures
        r == base_count(vocab@, merges@),
{
    if merges.len() == 0 {
        return 256;
    }
    match merge_pair(&merges[0]) {
        None => 256,
        Some((l, r)) => {
            let mut merged = to_vec(l);
            push_bytes(&mut merged, r);
            match index.number(vocab, merged.as_slice()) {
                Some(id) => id as usize,
                None => 256,
            }
        },
    }
}

/// The number of an entry, or 0.
fn number_of_entry(index: &VocabIndex, vocab: &[(String, Json)], key: &[u8]) -> (r: usize)
    requires
        index.indexes(vocab@, vocab@.len() as int),
    ensures
        r == number_or_zero(vocab@, key@),
{
    match index.number(vocab, key) {
        Some(n) => n as usize,
        None => 0,
    }
}

/// Check if merges are in topological order (can be processed sequentially).
pub fn are_merges_topological(
    index: &VocabIndex,
    vocab: &[(String, Json)],
    merges: &[Json],
    num_base_tokens: usize,
) -> (r: bool)
    requires
        index.indexes(vocab@, vocab@.len() as int),
    ensures
        r == topological(vocab@, merges@, num_base_tokens as int),
{
    let mut i: usize = 0;
    while i < merges.len()
        invariant
            i <= merges@.len(),
            index.indexes(vocab@, vocab@.len() as int),
            forall|k: int|
                0 <= k < i ==> #[trigger] in_turn(vocab@, merges@, num_base_tokens as int, k),
        decreases merges.len() - i,
    {
        if let Some((l, r)) = merge_pair(&merges[i]) {
            let left: usize = number_of_entry(index, vocab, l);
            let right: usize = number_of_entry(index, vocab, r);
            let available: u128 = num_base_tokens as u128 + i as u128;
            if left as u128 >= available || right as u128 >= available {
                assert(!in_turn(vocab@, merges@, num_base_tokens as int, i as int));
                return false;
            }
        }
        i = i + 1;
    }
    true
}

/// The ids that the merges join.
pub fn merges_of(index: &VocabIndex, vocab: &[(String, Json)], merges: &[Json]) -> (r: Vec<
    (TokenId, TokenId),
>)
    requires
        index.indexes(vocab@, vocab@.len() as int),
    ensures
        r@ == merge_ids(vocab@, merges@, merges@.len() as int),
{
    let mut out: Vec<(TokenId, TokenId)> = Vec::new();
    let mut i: usize = 0;
    while i < merges.len()
        invariant
            i <= merges@.len(),
            index.indexes(vocab@, vocab@.len() as int),
            out@ == merge_ids(vocab@, merges@, i as int),
        decreases merges.len() - i,
    {
        if let Some((l, r)) = merge_pair(&merges[i]) {
            if let Some(a) = index.number(vocab, l) {
                if let Some(b) = index.number(vocab, r) {
                    out.push((a as u32, b as u32));
                }
            }
        }
        i = i + 1;
    }
    out
}

// ---- the order of entries ----

/// The id of an entry.
pub open spec fn entry_id(e: (String, Json)) -> TokenId {
    match json::number_of(Some(e.1)) {
        Some(n) => n as u32,
        None => 0,
    }
}

/// The ids of the entries.
pub open spec fn entry_ids(v: Seq<(String, Json)>) -> Seq<u32> {
    Seq::new(v.len(), |i: int| entry_id(v[i]))
}

/// The ids number the entries: each is smaller than their count, and no two
/// are the same.
pub open spec fn ids_number_entries(v: Seq<(String, Json)>) -> bool {
    &&& forall|i: int| 0 <= i < v.len() ==> entry_id(#[trigger] v[i]) < v.len()
    &&& forall|i: int, j: int|
        0 <= i < j < v.len() ==> entry_id(#[trigger] v[i]) != entry_id(#[trigger] v[j])
}

/// The id of an entry.
pub fn read_entry_id(e: &(String, Json)) -> (r: u32)
    ensures
        r == entry_id(*e),
{
    match as_number(Some(&e.1)) {
        Some(n) =>
        #[verifier::truncate]
        (n as u32),
        None => 0,
    }
}

/// Where the entries stand in order of their ids; equal ids keep their order.
pub fn entries_in_order(v: &[(String, Json)]) -> (r: Vec<usize>)
    ensures
        order::in_order(entry_ids(v@), r@, 0, v@.len() as int),
        r@ == order::places(entry_ids(v@)),
{
    let mut ids: Vec<u32> = Vec::new();
    while ids.len() < v.len()
        invariant
            ids@.len() <= v@.len(),
            forall|k: int| 0 <= k < ids@.len() ==> #[trigger] ids@[k] == entry_id(v@[k]),
        decreases v.len() - ids.len(),
    {
        let next = read_entry_id(&v[ids.len()]);
        ids.push(next);
    }
    assert(ids@ =~= entry_ids(v@));
    sort_keys(ids.as_slice())
}

} // verus!
