//! The two concurrent maps of a comparison: messages by hash, and stamps by
//! subscription and value.

use crate::loadtest::compare::{Block, Seen};
use dashmap::DashMap;
use vstd::prelude::*;

verus! {

/// What a map of messages holds.
pub uninterp spec fn seen_held(m: DashMap<u64, Seen>) -> Map<u64, Seen>;

/// What a map of stamps holds.
pub uninterp spec fn blocks_held(m: DashMap<(u32, u64), Block>) -> Map<(u32, u64), Block>;

/// `DashMap::new`: a map that holds nothing.
#[verifier::external_body]
pub(crate) fn seen_new() -> (m: DashMap<u64, Seen>)
    ensures
        seen_held(m).is_empty(),
{
    DashMap::new()
}

/// `DashMap::insert`: the hash now leads to the given message, and what it led to
/// before is handed back.
#[verifier::external_body]
pub(crate) fn seen_insert(m: &mut DashMap<u64, Seen>, hash: u64, e: Seen) -> (r: Option<Seen>)
    ensures
        seen_held(*final(m)) == seen_held(*old(m)).insert(hash, e),
        r == if seen_held(*old(m)).dom().contains(hash) {
            Some(seen_held(*old(m))[hash])
        } else {
            None
        },
{
    m.insert(hash, e)
}

/// `DashMap::remove`: the hash leads nowhere any more, and the message it led to
/// is handed back.
#[verifier::external_body]
pub(crate) fn seen_remove(m: &mut DashMap<u64, Seen>, hash: u64) -> (r: Option<Seen>)
    ensures
        seen_held(*final(m)) == seen_held(*old(m)).remove(hash),
        r == if seen_held(*old(m)).dom().contains(hash) {
            Some(seen_held(*old(m))[hash])
        } else {
            None
        },
{
    m.remove(&hash).map(|pair| pair.1)
}

/// `DashMap::iter`: every hash that leads somewhere, each once. The order is the
/// map's own and nothing is said of it.
#[verifier::external_body]
pub(crate) fn seen_keys(m: &DashMap<u64, Seen>) -> (r: Vec<u64>)
    ensures
        r@.no_duplicates(),
        forall|k: u64| #[trigger] r@.contains(k) <==> seen_held(*m).dom().contains(k),
{
    m.iter().map(|item| *item.key()).collect()
}

/// `DashMap::len`: how many hashes lead somewhere.
#[verifier::external_body]
pub(crate) fn seen_len(m: &DashMap<u64, Seen>) -> (n: usize)
    ensures
        n == seen_held(*m).dom().len(),
{
    m.len()
}

/// `DashMap::new`: a map that holds nothing.
#[verifier::external_body]
pub(crate) fn blocks_new() -> (m: DashMap<(u32, u64), Block>)
    ensures
        blocks_held(m).is_empty(),
{
    DashMap::new()
}

/// `DashMap::insert`: the pair now leads to the given stamp, and what it led to
/// before is handed back.
#[verifier::external_body]
pub(crate) fn blocks_insert(m: &mut DashMap<(u32, u64), Block>, key: (u32, u64), b: Block) -> (r:
    Option<Block>)
    ensures
        blocks_held(*final(m)) == blocks_held(*old(m)).insert(key, b),
        r == if blocks_held(*old(m)).dom().contains(key) {
            Some(blocks_held(*old(m))[key])
        } else {
            None
        },
{
    m.insert(key, b)
}

/// `DashMap::remove`: the pair leads nowhere any more, and the stamp it led to is
/// handed back.
#[verifier::external_body]
pub(crate) fn blocks_remove(m: &mut DashMap<(u32, u64), Block>, key: (u32, u64)) -> (r: Option<
    Block,
>)
    ensures
        blocks_held(*final(m)) == blocks_held(*old(m)).remove(key),
        r == if blocks_held(*old(m)).dom().contains(key) {
            Some(blocks_held(*old(m))[key])
        } else {
            None
        },
{
    m.remove(&key).map(|pair| pair.1)
}

/// `DashMap::iter`: every pair that leads somewhere, each once. The order is the
/// map's own and nothing is said of it.
#[verifier::external_body]
pub(crate) fn blocks_keys(m: &DashMap<(u32, u64), Block>) -> (r: Vec<(u32, u64)>)
    ensures
        r@.no_duplicates(),
        forall|k: (u32, u64)| #[trigger]
            r@.contains(k) <==> blocks_held(*m).dom().contains(k),
{
    m.iter().map(|item| *item.key()).collect()
}

/// `DashMap::view` with [`Block::by_proxy`]: how many messages the proxy carried
/// for the stamp that the pair leads to, if it leads anywhere.
#[verifier::external_body]
pub(crate) fn blocks_get(m: &DashMap<(u32, u64), Block>, key: (u32, u64)) -> (r: Option<u32>)
    ensures
        r is Some <==> blocks_held(*m).dom().contains(key),
        r matches Some(n) ==> blocks_held(*m)[key]@.n.len() > 0 ==> n == blocks_held(*m)[key]@.n[0],
{
    m.view(&key, |_, block| block.by_proxy())
}

} // verus!
