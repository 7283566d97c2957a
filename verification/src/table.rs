//! The hash tables of the `dashmap` crate, and what the library relies on of them.
//!
//! A `DashMap` may be changed through a shared reference. Here every call that changes one
//! takes it by a mutable reference, and the library keeps its tables in private fields, so
//! that what a table holds is a matter of the table alone.

use crate::addr::AddrKey;
use dashmap::DashMap;
use vstd::prelude::*;

verus! {

/// A hash table that is split into shards with a lock each.
#[verifier::external_type_specification]
#[verifier::external_body]
#[verifier::reject_recursive_types(K)]
#[verifier::reject_recursive_types(V)]
#[verifier::reject_recursive_types(S)]
pub struct ExDashMap<K, V, S>(dashmap::DashMap<K, V, S>);

/// What stands for a connection in a routing table: its ID, and the address of its peer.
pub type RouteKey = (u16, AddrKey);

/// The mailboxes in a routing table, by connection.
pub uninterp spec fn routes_in(table: DashMap<RouteKey, u64>) -> Map<RouteKey, u64>;

/// The states in a table of connections, by connection ID.
pub uninterp spec fn states_in(table: DashMap<u16, u64>) -> Map<u16, u64>;

/// The contents of an empty routing table.
pub open spec fn no_routes() -> Map<RouteKey, u64> {
    Map::empty()
}

/// `DashMap::new`: an empty routing table.
#[verifier::external_body]
pub(crate) fn new_routes() -> (table: DashMap<RouteKey, u64>)
    ensures
        routes_in(table) == no_routes(),
{
    DashMap::new()
}

/// `DashMap::contains_key` on a routing table.
#[verifier::external_body]
pub(crate) fn has_route(table: &DashMap<RouteKey, u64>, key: RouteKey) -> (r: bool)
    ensures
        r == routes_in(*table).contains_key(key),
{
    table.contains_key(&key)
}

/// `DashMap::get` on a routing table: the mailbox of the connection, if it is in the table.
#[verifier::external_body]
pub(crate) fn get_route(table: &DashMap<RouteKey, u64>, key: RouteKey) -> (r: Option<u64>)
    ensures
        match r {
            Some(mailbox) => routes_in(*table).contains_key(key) && routes_in(*table)[key]
                == mailbox,
            None => !routes_in(*table).contains_key(key),
        },
{
    table.get(&key).map(|entry| *entry.value())
}

/// `DashMap::insert` on a routing table: the connection has this mailbox afterwards. The
/// mailbox that it had is returned.
#[verifier::external_body]
pub(crate) fn insert_route(table: &mut DashMap<RouteKey, u64>, key: RouteKey, mailbox: u64) -> (r:
    Option<u64>)
    ensures
        routes_in(*final(table)) == routes_in(*old(table)).insert(key, mailbox),
        match r {
            Some(previous) => routes_in(*old(table)).contains_key(key) && routes_in(
                *old(table),
            )[key] == previous,
            None => !routes_in(*old(table)).contains_key(key),
        },
{
    table.insert(key, mailbox)
}

/// `DashMap::remove` on a routing table: the connection is not in the table afterwards. The
/// entry that it had is returned.
#[verifier::external_body]
pub(crate) fn remove_route(table: &mut DashMap<RouteKey, u64>, key: RouteKey) -> (r: Option<
    (RouteKey, u64),
>)
    ensures
        routes_in(*final(table)) == routes_in(*old(table)).remove(key),
        match r {
            Some((k, mailbox)) => k == key && routes_in(*old(table)).contains_key(key)
                && routes_in(*old(table))[key] == mailbox,
            None => !routes_in(*old(table)).contains_key(key),
        },
{
    table.remove(&key)
}

/// `DashMap::contains_key` on a table of connections.
#[verifier::external_body]
pub(crate) fn has_state(table: &DashMap<u16, u64>, id: u16) -> (r: bool)
    ensures
        r == states_in(*table).contains_key(id),
{
    table.contains_key(&id)
}

/// `DashMap::get` on a table of connections: the state with this ID, if it is in the table.
#[verifier::external_body]
pub(crate) fn get_state(table: &DashMap<u16, u64>, id: u16) -> (r: Option<u64>)
    ensures
        match r {
            Some(state) => states_in(*table).contains_key(id) && states_in(*table)[id] == state,
            None => !states_in(*table).contains_key(id),
        },
{
    table.get(&id).map(|entry| *entry.value())
}

/// `DashMap::insert` on a table of connections: the ID has this state afterwards. The state
/// that it had is returned.
#[verifier::external_body]
pub(crate) fn insert_state(table: &mut DashMap<u16, u64>, id: u16, state: u64) -> (r: Option<u64>)
    ensures
        states_in(*final(table)) == states_in(*old(table)).insert(id, state),
        match r {
            Some(previous) => states_in(*old(table)).contains_key(id) && states_in(*old(table))[id]
                == previous,
            None => !states_in(*old(table)).contains_key(id),
        },
{
    table.insert(id, state)
}

} // verus!
