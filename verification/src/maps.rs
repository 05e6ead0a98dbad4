//! Hash maps with a fast hasher, from token pairs and from token bytes.
use crate::types::TokenId;
use vstd::prelude::*;

verus! {

/// Trusted: the hasher state of `foldhash`, carried and never looked into.
#[verifier::external_type_specification]
#[verifier::external_body]
pub struct ExRandomState(foldhash::fast::RandomState);

/// What a map from packed pairs holds.
pub uninterp spec fn pair_map(m: foldhash::HashMap<u64, TokenId>) -> Map<u64, TokenId>;

/// What a map from byte strings holds.
pub uninterp spec fn bytes_map(m: foldhash::HashMap<Vec<u8>, TokenId>) -> Map<Seq<u8>, TokenId>;

/// Trusted: `HashMap::default` with the hasher of `foldhash` makes an empty map.
#[verifier::external_body]
pub(crate) fn new_pair_map() -> (m: foldhash::HashMap<u64, TokenId>)
    ensures
        forall|k: u64| !pair_map(m).contains_key(k),
{
    foldhash::HashMap::default()
}

/// Trusted: `HashMap::insert` sets the value of a key.
#[verifier::external_body]
pub(crate) fn pair_map_insert(m: &mut foldhash::HashMap<u64, TokenId>, k: u64, v: TokenId)
    ensures
        pair_map(*final(m)) == pair_map(*old(m)).insert(k, v),
{
    m.insert(k, v);
}

/// Trusted: `HashMap::get` gives the value of a key, if it has one.
#[verifier::external_body]
pub(crate) fn pair_map_get(m: &foldhash::HashMap<u64, TokenId>, k: u64) -> (r: Option<TokenId>)
    ensures
        r == if pair_map(*m).contains_key(k) {
            Some(pair_map(*m)[k])
        } else {
            None
        },
{
    m.get(&k).copied()
}

/// Trusted: `HashMap::default` with the hasher of `foldhash` makes an empty map.
#[verifier::external_body]
pub(crate) fn new_bytes_map() -> (m: foldhash::HashMap<Vec<u8>, TokenId>)
    ensures
        forall|k: Seq<u8>| !bytes_map(m).contains_key(k),
{
    foldhash::HashMap::default()
}

/// Trusted: `HashMap::insert` sets the value of a key.
#[verifier::external_body]
pub(crate) fn bytes_map_insert(m: &mut foldhash::HashMap<Vec<u8>, TokenId>, k: Vec<u8>, v: TokenId)
    ensures
        bytes_map(*final(m)) == bytes_map(*old(m)).insert(k@, v),
{
    m.insert(k, v);
}

/// Trusted: `HashMap::get` gives the value of a key, if it has one.
#[verifier::external_body]
pub(crate) fn bytes_map_get(m: &foldhash::HashMap<Vec<u8>, TokenId>, k: &[u8]) -> (r: Option<
    TokenId,
>)
    ensures
        r == if bytes_map(*m).contains_key(k@) {
            Some(bytes_map(*m)[k@])
        } else {
            None
        },
{
    m.get(k).copied()
}

/// What a map from packed keys to ranges holds.
pub uninterp spec fn key_map(m: foldhash::HashMap<u128, (u32, u32)>) -> Map<u128, (u32, u32)>;

/// What a map from byte strings to ranges holds.
pub uninterp spec fn range_map(m: foldhash::HashMap<Box<[u8]>, (u32, u32)>) -> Map<
    Seq<u8>,
    (u32, u32),
>;

/// Trusted: `HashMap::default` with the hasher of `foldhash` makes an empty map.
#[verifier::external_body]
pub(crate) fn new_key_map() -> (m: foldhash::HashMap<u128, (u32, u32)>)
    ensures
        forall|k: u128| !key_map(m).contains_key(k),
{
    foldhash::HashMap::default()
}

/// Trusted: `HashMap::insert` sets the value of a key.
#[verifier::external_body]
pub(crate) fn key_map_insert(m: &mut foldhash::HashMap<u128, (u32, u32)>, k: u128, v: (u32, u32))
    ensures
        key_map(*final(m)) == key_map(*old(m)).insert(k, v),
{
    m.insert(k, v);
}

/// Trusted: `HashMap::get` gives the value of a key, if it has one.
#[verifier::external_body]
pub(crate) fn key_map_get(m: &foldhash::HashMap<u128, (u32, u32)>, k: u128) -> (r: Option<
    (u32, u32),
>)
    ensures
        r == if key_map(*m).contains_key(k) {
            Some(key_map(*m)[k])
        } else {
            None
        },
{
    m.get(&k).copied()
}

/// Trusted: `HashMap::default` with the hasher of `foldhash` makes an empty map.
#[verifier::external_body]
pub(crate) fn new_range_map() -> (m: foldhash::HashMap<Box<[u8]>, (u32, u32)>)
    ensures
        forall|k: Seq<u8>| !range_map(m).contains_key(k),
{
    foldhash::HashMap::default()
}

/// Trusted: `HashMap::insert` sets the value of a key.
#[verifier::external_body]
pub(crate) fn range_map_insert(
    m: &mut foldhash::HashMap<Box<[u8]>, (u32, u32)>,
    k: &[u8],
    v: (u32, u32),
)
    ensures
        range_map(*final(m)) == range_map(*old(m)).insert(k@, v),
{
    m.insert(k.to_vec().into_boxed_slice(), v);
}

/// Trusted: `HashMap::get` gives the value of a key, if it has one.
#[verifier::external_body]
pub(crate) fn range_map_get(m: &foldhash::HashMap<Box<[u8]>, (u32, u32)>, k: &[u8]) -> (r: Option<
    (u32, u32),
>)
    ensures
        r == if range_map(*m).contains_key(k@) {
            Some(range_map(*m)[k@])
        } else {
            None
        },
{
    m.get(k).copied()
}

} // verus!
