//! The hash maps of `bevy_platform` that this library keeps its tables in.
//! Each table is a `bevy::platform::collections::HashMap` of one key and value
//! type; its contents are named by a spec function, and each method that the
//! library calls has a wrapper whose contract says, over that name, what the
//! method does to the contents and what it returns.
use vstd::prelude::*;

use bevy::ecs::entity::Entity;
use bevy::platform::collections::HashMap;
use bevy::platform::hash::FixedHasher;

use crate::messages::DisconnectReason;

verus! {

#[verifier::external_type_specification]
#[verifier::external_body]
pub struct ExFixedHasher(FixedHasher);

#[verifier::external_type_specification]
#[verifier::external_body]
#[verifier::reject_recursive_types(K)]
#[verifier::reject_recursive_types(V)]
#[verifier::reject_recursive_types(S)]
pub struct ExHashMap<K, V, S>(HashMap<K, V, S>);

/// Sessions, by number, mapped to the entity that holds their transports.
pub type SessionEntities = HashMap<u128, Entity>;

/// Sessions, by number, whose disconnection was requested, with the reason.
pub type PendingDisconnects = HashMap<u128, DisconnectReason>;

/// Channels, by identifier, mapped to the payloads received on them.
pub type ChannelQueues = HashMap<u64, Vec<Vec<u8>>>;

/// Components, by channel identifier, mapped to their latest encoded state.
pub type ComponentUpdates = HashMap<u64, Vec<u8>>;

/// Sessions, by number, mapped to the token of the runtime slot that serves them.
pub type SessionTokens = HashMap<u128, usize>;

/// The entries of a `SessionTokens` table.
pub uninterp spec fn session_tokens(m: SessionTokens) -> Map<u128, usize>;

/// The entries of a `SessionEntities` table.
pub uninterp spec fn session_entities(m: SessionEntities) -> Map<u128, Entity>;

/// The entries of a `PendingDisconnects` table.
pub uninterp spec fn pending_disconnects(m: PendingDisconnects) -> Map<u128, DisconnectReason>;

/// The entries of a `ChannelQueues` table.
pub uninterp spec fn channel_queues(m: ChannelQueues) -> Map<u64, Vec<Vec<u8>>>;

/// The entries of a `ComponentUpdates` table.
pub uninterp spec fn component_updates(m: ComponentUpdates) -> Map<u64, Vec<u8>>;

// ---- SessionEntities ----

/// `HashMap::new`: an empty table.
#[verifier::external_body]
pub(crate) fn session_entities_new() -> (res: SessionEntities)
    ensures
        session_entities(res) =~= Map::empty(),
{
    HashMap::new()
}

/// `HashMap::contains_key`: whether `k` has an entry.
#[verifier::external_body]
pub(crate) fn session_entities_contains(m: &SessionEntities, k: u128) -> (res: bool)
    ensures
        res == session_entities(*m).dom().contains(k),
{
    m.contains_key(&k)
}

/// `HashMap::get`, copied out: the entry of `k`, if any.
#[verifier::external_body]
pub(crate) fn session_entities_get(m: &SessionEntities, k: u128) -> (res: Option<Entity>)
    ensures
        res == (if session_entities(*m).dom().contains(k) {
            Some(session_entities(*m)[k])
        } else {
            None
        }),
{
    m.get(&k).copied()
}

/// `HashMap::insert`: sets the entry of `k` to `v` and returns the entry it replaced.
#[verifier::external_body]
pub(crate) fn session_entities_insert(m: &mut SessionEntities, k: u128, v: Entity) -> (res: Option<Entity>)
    ensures
        session_entities(*final(m)) == session_entities(*old(m)).insert(k, v),
        res == (if session_entities(*old(m)).dom().contains(k) {
            Some(session_entities(*old(m))[k])
        } else {
            None
        }),
{
    m.insert(k, v)
}

/// `HashMap::remove`: drops the entry of `k` and returns it.
#[verifier::external_body]
pub(crate) fn session_entities_remove(m: &mut SessionEntities, k: u128) -> (res: Option<Entity>)
    ensures
        session_entities(*final(m)) == session_entities(*old(m)).remove(k),
        res == (if session_entities(*old(m)).dom().contains(k) {
            Some(session_entities(*old(m))[k])
        } else {
            None
        }),
{
    m.remove(&k)
}

// ---- PendingDisconnects ----

/// `HashMap::new`: an empty table.
#[verifier::external_body]
pub(crate) fn pending_disconnects_new() -> (res: PendingDisconnects)
    ensures
        pending_disconnects(res) =~= Map::empty(),
{
    HashMap::new()
}

/// `HashMap::insert`: sets the entry of `k` to `v` and returns the entry it replaced.
#[verifier::external_body]
pub(crate) fn pending_disconnects_insert(
    m: &mut PendingDisconnects,
    k: u128,
    v: DisconnectReason,
) -> (res: Option<DisconnectReason>)
    ensures
        pending_disconnects(*final(m)) == pending_disconnects(*old(m)).insert(k, v),
        res == (if pending_disconnects(*old(m)).dom().contains(k) {
            Some(pending_disconnects(*old(m))[k])
        } else {
            None
        }),
{
    m.insert(k, v)
}

/// `HashMap::drain`, collected: every entry, each once, in the table's own
/// order (which the contract leaves open), and the table left empty.
#[verifier::external_body]
pub(crate) fn pending_disconnects_drain(m: &mut PendingDisconnects) -> (res: Vec<(u128, DisconnectReason)>)
    ensures
        pending_disconnects(*final(m)) =~= Map::empty(),
        forall|i: int|
            0 <= i < res@.len() ==> pending_disconnects(*old(m)).dom().contains(#[trigger] res@[i].0)
                && pending_disconnects(*old(m))[res@[i].0] == res@[i].1,
        forall|k: u128|
            pending_disconnects(*old(m)).dom().contains(k) ==> exists|i: int|
                0 <= i < res@.len() && #[trigger] res@[i].0 == k,
        forall|i: int|
            forall|j: int| 0 <= i < j < res@.len() ==> #[trigger] res@[i].0 != #[trigger] res@[j].0,
{
    m.drain().collect()
}

// ---- ChannelQueues ----

/// `HashMap::new`: an empty table.
#[verifier::external_body]
pub(crate) fn channel_queues_new() -> (res: ChannelQueues)
    ensures
        channel_queues(res) =~= Map::empty(),
{
    HashMap::new()
}

/// `HashMap::insert`: sets the entry of `k` to `v` and returns the entry it replaced.
#[verifier::external_body]
pub(crate) fn channel_queues_insert(m: &mut ChannelQueues, k: u64, v: Vec<Vec<u8>>) -> (res: Option<Vec<Vec<u8>>>)
    ensures
        channel_queues(*final(m)) == channel_queues(*old(m)).insert(k, v),
        res == (if channel_queues(*old(m)).dom().contains(k) {
            Some(channel_queues(*old(m))[k])
        } else {
            None
        }),
{
    m.insert(k, v)
}

/// `HashMap::remove`: drops the entry of `k` and returns it.
#[verifier::external_body]
pub(crate) fn channel_queues_remove(m: &mut ChannelQueues, k: u64) -> (res: Option<Vec<Vec<u8>>>)
    ensures
        channel_queues(*final(m)) == channel_queues(*old(m)).remove(k),
        res == (if channel_queues(*old(m)).dom().contains(k) {
            Some(channel_queues(*old(m))[k])
        } else {
            None
        }),
{
    m.remove(&k)
}

// ---- ComponentUpdates ----

/// `HashMap::new`: an empty table.
#[verifier::external_body]
pub(crate) fn component_updates_new() -> (res: ComponentUpdates)
    ensures
        component_updates(res) =~= Map::empty(),
{
    HashMap::new()
}

/// `HashMap::insert`: sets the entry of `k` to `v` and returns the entry it replaced.
#[verifier::external_body]
pub(crate) fn component_updates_insert(m: &mut ComponentUpdates, k: u64, v: Vec<u8>) -> (res: Option<Vec<u8>>)
    ensures
        component_updates(*final(m)) == component_updates(*old(m)).insert(k, v),
        res == (if component_updates(*old(m)).dom().contains(k) {
            Some(component_updates(*old(m))[k])
        } else {
            None
        }),
{
    m.insert(k, v)
}

/// `HashMap::get`: the entry of `k`, if any.
#[verifier::external_body]
pub(crate) fn component_updates_get(m: &ComponentUpdates, k: u64) -> (res: Option<&Vec<u8>>)
    ensures
        res == (if component_updates(*m).dom().contains(k) {
            Some(&component_updates(*m)[k])
        } else {
            None
        }),
{
    m.get(&k)
}

/// `HashMap::clear`: drops every entry.
#[verifier::external_body]
pub(crate) fn component_updates_clear(m: &mut ComponentUpdates)
    ensures
        component_updates(*final(m)) =~= Map::empty(),
{
    m.clear()
}

// ---- SessionTokens ----

/// `HashMap::new`: an empty table.
#[verifier::external_body]
pub(crate) fn session_tokens_new() -> (res: SessionTokens)
    ensures
        session_tokens(res) =~= Map::empty(),
{
    HashMap::new()
}

/// `HashMap::get`, copied out: the entry of `k`, if any.
#[verifier::external_body]
pub(crate) fn session_tokens_get(m: &SessionTokens, k: u128) -> (res: Option<usize>)
    ensures
        res == (if session_tokens(*m).dom().contains(k) {
            Some(session_tokens(*m)[k])
        } else {
            None
        }),
{
    m.get(&k).copied()
}

/// `HashMap::insert`: sets the entry of `k` to `v` and returns the entry it replaced.
#[verifier::external_body]
pub(crate) fn session_tokens_insert(m: &mut SessionTokens, k: u128, v: usize) -> (res: Option<usize>)
    ensures
        session_tokens(*final(m)) == session_tokens(*old(m)).insert(k, v),
        res == (if session_tokens(*old(m)).dom().contains(k) {
            Some(session_tokens(*old(m))[k])
        } else {
            None
        }),
{
    m.insert(k, v)
}

/// `HashMap::remove`: drops the entry of `k` and returns it.
#[verifier::external_body]
pub(crate) fn session_tokens_remove(m: &mut SessionTokens, k: u128) -> (res: Option<usize>)
    ensures
        session_tokens(*final(m)) == session_tokens(*old(m)).remove(k),
        res == (if session_tokens(*old(m)).dom().contains(k) {
            Some(session_tokens(*old(m))[k])
        } else {
            None
        }),
{
    m.remove(&k)
}

} // verus!
