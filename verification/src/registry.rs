//! The two concurrent maps: subscriptions by key, and clients by id.

use crate::client::Client;
use crate::entry::{EntrySummary, SubEntry};
use crate::key::KeyParts;
use dashmap::DashMap;
use vstd::prelude::*;

verus! {

/// `dashmap::DashMap`, a hash map.
#[verifier::external_type_specification]
#[verifier::external_body]
#[verifier::reject_recursive_types(K)]
#[verifier::reject_recursive_types(V)]
#[verifier::reject_recursive_types(S)]
pub struct ExDashMap<K, V, S>(DashMap<K, V, S>);

/// What a map of subscriptions holds.
pub uninterp spec fn subs_held(m: DashMap<KeyParts, SubEntry>) -> Map<
    (u8, Seq<char>, Option<u32>, Option<usize>, Option<u64>),
    SubEntry,
>;

/// What a map of clients holds.
pub uninterp spec fn clients_held(m: DashMap<u64, Client>) -> Map<u64, Client>;

/// `DashMap::new`: a map that holds nothing.
#[verifier::external_body]
pub(crate) fn subs_new() -> (m: DashMap<KeyParts, SubEntry>)
    ensures
        subs_held(m).is_empty(),
{
    DashMap::new()
}

/// `DashMap::insert`: the key now leads to the given value, and what it led to
/// before is handed back.
#[verifier::external_body]
pub(crate) fn subs_insert(m: &mut DashMap<KeyParts, SubEntry>, key: KeyParts, entry: SubEntry) -> (r:
    Option<SubEntry>)
    ensures
        subs_held(*final(m)) == subs_held(*old(m)).insert(key@, entry),
        r == if subs_held(*old(m)).dom().contains(key@) {
            Some(subs_held(*old(m))[key@])
        } else {
            None
        },
{
    m.insert(key, entry)
}

/// `DashMap::remove`: the key leads nowhere any more, and what it led to is
/// handed back.
#[verifier::external_body]
pub(crate) fn subs_remove(m: &mut DashMap<KeyParts, SubEntry>, key: &KeyParts) -> (r: Option<
    SubEntry,
>)
    ensures
        subs_held(*final(m)) == subs_held(*old(m)).remove(key@),
        r == if subs_held(*old(m)).dom().contains(key@) {
            Some(subs_held(*old(m))[key@])
        } else {
            None
        },
{
    m.remove(key).map(|pair| pair.1)
}

/// `DashMap::iter`: every key that leads somewhere, each once. The order is the
/// map's own and nothing is said of it.
#[verifier::external_body]
pub(crate) fn subs_keys(m: &DashMap<KeyParts, SubEntry>) -> (r: Vec<KeyParts>)
    ensures
        forall|i: int|
            0 <= i < r@.len() ==> subs_held(*m).dom().contains((#[trigger] r@[i])@),
        forall|k: (u8, Seq<char>, Option<u32>, Option<usize>, Option<u64>)| #[trigger]
            subs_held(*m).dom().contains(k) ==> exists|i: int|
                0 <= i < r@.len() && (#[trigger] r@[i])@ == k,
        forall|i: int, j: int|
            0 <= i < j < r@.len() ==> (#[trigger] r@[i])@ != (#[trigger] r@[j])@,
{
    m.iter().map(|item| item.key().clone()).collect()
}

/// `DashMap::view` with [`SubEntry::summary`]: what there is to read of the entry
/// that the key leads to, if it leads anywhere.
#[verifier::external_body]
pub(crate) fn subs_get(m: &DashMap<KeyParts, SubEntry>, key: &KeyParts) -> (r: Option<EntrySummary>)
    ensures
        r is Some <==> subs_held(*m).dom().contains(key@),
        r matches Some(s) ==> s.describes(subs_held(*m)[key@]@),
{
    m.view(key, |_, entry| entry.summary())
}

/// `DashMap::new`: a map that holds nothing.
#[verifier::external_body]
pub(crate) fn clients_new() -> (m: DashMap<u64, Client>)
    ensures
        clients_held(m).is_empty(),
{
    DashMap::new()
}

/// `DashMap::insert`: the id now leads to the given client, and the one it led to
/// before is handed back.
#[verifier::external_body]
pub(crate) fn clients_insert(m: &mut DashMap<u64, Client>, id: u64, client: Client) -> (r: Option<
    Client,
>)
    ensures
        clients_held(*final(m)) == clients_held(*old(m)).insert(id, client),
        r == if clients_held(*old(m)).dom().contains(id) {
            Some(clients_held(*old(m))[id])
        } else {
            None
        },
{
    m.insert(id, client)
}

/// `DashMap::remove`: the id leads nowhere any more, and the client it led to is
/// handed back.
#[verifier::external_body]
pub(crate) fn clients_remove(m: &mut DashMap<u64, Client>, id: u64) -> (r: Option<Client>)
    ensures
        clients_held(*final(m)) == clients_held(*old(m)).remove(id),
        r == if clients_held(*old(m)).dom().contains(id) {
            Some(clients_held(*old(m))[id])
        } else {
            None
        },
{
    m.remove(&id).map(|pair| pair.1)
}

/// `DashMap::iter`: every id that leads somewhere, each once. The order is the
/// map's own and nothing is said of it.
#[verifier::external_body]
pub(crate) fn clients_ids(m: &DashMap<u64, Client>) -> (r: Vec<u64>)
    ensures
        r@.no_duplicates(),
        forall|id: u64| #[trigger] r@.contains(id) <==> clients_held(*m).dom().contains(id),
{
    m.iter().map(|item| *item.key()).collect()
}

/// `DashMap::view` with [`Client::copied`]: a copy of the client that the id leads
/// to, if it leads anywhere.
#[verifier::external_body]
pub(crate) fn clients_get(m: &DashMap<u64, Client>, id: u64) -> (r: Option<Client>)
    ensures
        r is Some <==> clients_held(*m).dom().contains(id),
        r matches Some(c) ==> c@ == clients_held(*m)[id]@,
{
    m.view(&id, |_, client| client.copied())
}

} // verus!
