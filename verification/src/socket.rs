//! The connections of a socket, and the tasks that receive and send its packets.

pub mod packet_receiver;
pub mod packet_sender;

use crate::addr::{addr_key, SocketAddr};
use crate::error::ConnectionError;
use crate::random::random_u16;
use crate::table;
use crate::table::{no_routes, routes_in, RouteKey};
use dashmap::DashMap;
use vstd::prelude::*;

verus! {

/// The number of bytes in the largest datagram: an Ethernet frame without the headers of IP
/// and UDP.
pub const MAX_DATAGRAM_SIZE: usize = 1472;

/// What stands for the connection with the given ID to the given address.
pub open spec fn route_key(connection_id: u16, remote_addr: SocketAddr) -> RouteKey {
    (connection_id, addr_key(remote_addr))
}

/// A socket: its address, and a routing table of the connections that share it.
///
/// Each entry of the table has a mailbox, which is known by a number. Packets for the
/// connection go there.
pub struct UtpSocket {
    local_addr: SocketAddr,
    routing_table: DashMap<RouteKey, u64>,
}

impl UtpSocket {
    /// The address that the socket is bound to.
    pub closed spec fn address(&self) -> SocketAddr {
        self.local_addr
    }

    /// The mailboxes of the connections.
    pub closed spec fn routes(&self) -> Map<RouteKey, u64> {
        routes_in(self.routing_table)
    }

    /// A socket that is bound to the given address and has no connection.
    pub fn new(local_addr: SocketAddr) -> (r: Self)
        ensures
            r.address() == local_addr,
            r.routes() == no_routes(),
    {
        Self { local_addr, routing_table: table::new_routes() }
    }

    /// The address that the socket is bound to.
    pub fn local_addr(&self) -> (r: SocketAddr)
        ensures
            r == self.address(),
    {
        self.local_addr
    }

    /// Whether there is a connection with this ID to this address.
    pub fn has_connection(&self, connection_id: u16, remote_addr: SocketAddr) -> (r: bool)
        ensures
            r == self.routes().contains_key(route_key(connection_id, remote_addr)),
    {
        table::has_route(&self.routing_table, (connection_id, remote_addr.key()))
    }

    /// The mailbox of the connection with this ID to this address, if there is one.
    pub fn mailbox(&self, connection_id: u16, remote_addr: SocketAddr) -> (r: Option<u64>)
        ensures
            match r {
                Some(mailbox) => self.routes().contains_key(route_key(connection_id, remote_addr))
                    && self.routes()[route_key(connection_id, remote_addr)] == mailbox,
                None => !self.routes().contains_key(route_key(connection_id, remote_addr)),
            },
    {
        table::get_route(&self.routing_table, (connection_id, remote_addr.key()))
    }

    /// Enters a connection with this ID to this address in the routing table, unless there is
    /// one already.
    pub fn insert_connection(
        &mut self,
        connection_id: u16,
        remote_addr: SocketAddr,
        mailbox: u64,
    ) -> (r: Result<(), ConnectionError>)
        ensures
            final(self).address() == old(self).address(),
            match r {
                Ok(()) => {
                    &&& !old(self).routes().contains_key(route_key(connection_id, remote_addr))
                    &&& final(self).routes() == old(self).routes().insert(
                        route_key(connection_id, remote_addr),
                        mailbox,
                    )
                },
                Err(error) => {
                    &&& old(self).routes().contains_key(route_key(connection_id, remote_addr))
                    &&& error == ConnectionError::AlreadyExists(connection_id, remote_addr)
                    &&& final(self).routes() == old(self).routes()
                },
            },
    {
        let key: RouteKey = (connection_id, remote_addr.key());
        if table::has_route(&self.routing_table, key) {
            Err(ConnectionError::AlreadyExists(connection_id, remote_addr))
        } else {
            let _ = table::insert_route(&mut self.routing_table, key, mailbox);
            Ok(())
        }
    }

    /// Enters a connection to this address in the routing table, under a random ID that is
    /// free. At most `draws` IDs are drawn. If all of them are taken, the lowest that is free is
    /// used, so that there is a connection unless all IDs are taken.
    pub fn register_connection(&mut self, remote_addr: SocketAddr, mailbox: u64, draws: u64) -> (r:
        Option<u16>)
        ensures
            final(self).address() == old(self).address(),
            match r {
                Some(connection_id) => {
                    &&& !old(self).routes().contains_key(route_key(connection_id, remote_addr))
                    &&& final(self).routes() == old(self).routes().insert(
                        route_key(connection_id, remote_addr),
                        mailbox,
                    )
                },
                None => {
                    &&& forall|id: u16| #[trigger]
                        old(self).routes().contains_key(route_key(id, remote_addr))
                    &&& final(self).routes() == old(self).routes()
                },
            },
    {
        let mut left: u64 = draws;
        while left > 0
            invariant
                left <= draws,
                self.address() == old(self).address(),
                self.routes() == old(self).routes(),
            decreases left,
        {
            let connection_id = random_u16();
            if self.insert_connection(connection_id, remote_addr, mailbox).is_ok() {
                return Some(connection_id);
            }
            left = left - 1;
        }
        self.register_lowest(remote_addr, mailbox)
    }

    /// Enters a connection to this address in the routing table, under the lowest ID that is
    /// free.
    fn register_lowest(&mut self, remote_addr: SocketAddr, mailbox: u64) -> (r: Option<u16>)
        ensures
            final(self).address() == old(self).address(),
            match r {
                Some(connection_id) => {
                    &&& !old(self).routes().contains_key(route_key(connection_id, remote_addr))
                    &&& forall|id: u16|
                        id < connection_id ==> #[trigger] old(self).routes().contains_key(
                            route_key(id, remote_addr),
                        )
                    &&& final(self).routes() == old(self).routes().insert(
                        route_key(connection_id, remote_addr),
                        mailbox,
                    )
                },
                None => {
                    &&& forall|id: u16| #[trigger]
                        old(self).routes().contains_key(route_key(id, remote_addr))
                    &&& final(self).routes() == old(self).routes()
                },
            },
    {
        let mut connection_id: u16 = 0;
        while self.insert_connection(connection_id, remote_addr, mailbox).is_err()
            invariant
                self.address() == old(self).address(),
                self.routes() == old(self).routes(),
                forall|id: u16|
                    id < connection_id ==> #[trigger] old(self).routes().contains_key(
                        route_key(id, remote_addr),
                    ),
            decreases u16::MAX - connection_id,
        {
            match connection_id.checked_add(1) {
                Some(next) => {
                    connection_id = next;
                },
                None => {
                    return None;
                },
            }
        }
        Some(connection_id)
    }

    /// Takes the connection with this ID to this address out of the routing table.
    pub fn remove_connection(&mut self, connection_id: u16, remote_addr: SocketAddr)
        ensures
            final(self).address() == old(self).address(),
            final(self).routes() == old(self).routes().remove(route_key(connection_id, remote_addr)),
    {
        let _ = table::remove_route(&mut self.routing_table, (connection_id, remote_addr.key()));
    }
}

/// Connections have different keys where their IDs or their addresses differ.
pub proof fn law_route_key_injective(id1: u16, addr1: SocketAddr, id2: u16, addr2: SocketAddr)
    requires
        route_key(id1, addr1) == route_key(id2, addr2),
    ensures
        id1 == id2,
        addr1 == addr2,
{
    crate::addr::law_addr_key_injective(addr1, addr2);
}

/// A connection that is entered in a routing table has its mailbox there, and all others keep
/// theirs. One that is not in the table then has another ID or another address. No other has
/// the same mailbox where none had it before. A connection that is taken out has none, and all
/// others keep theirs.
pub proof fn law_connections_are_separate(
    routes: Map<RouteKey, u64>,
    connection_id: u16,
    remote_addr: SocketAddr,
    mailbox: u64,
    other_id: u16,
    other_addr: SocketAddr,
)
    ensures
        ({
            let key = route_key(connection_id, remote_addr);
            let other = route_key(other_id, other_addr);
            let entered = routes.insert(key, mailbox);
            let removed = routes.remove(key);
            &&& entered.contains_key(key) && entered[key] == mailbox
            &&& !entered.contains_key(other) ==> connection_id != other_id || remote_addr
                != other_addr
            &&& !removed.contains_key(key)
            &&& connection_id != other_id || remote_addr != other_addr ==> {
                &&& entered.contains_key(other) == routes.contains_key(other)
                &&& removed.contains_key(other) == routes.contains_key(other)
                &&& routes.contains_key(other) ==> entered[other] == routes[other]
                    && removed[other] == routes[other]
            }
            &&& (forall|k: RouteKey| #[trigger] routes.contains_key(k) ==> routes[k] != mailbox)
                ==> forall|k: RouteKey| #[trigger]
                entered.contains_key(k) && k != key ==> entered[k] != mailbox
        }),
{
    let key = route_key(connection_id, remote_addr);
    let entered = routes.insert(key, mailbox);
    assert forall|k: RouteKey| #[trigger] entered.contains_key(k) && k != key implies
        routes.contains_key(k) && entered[k] == routes[k] by {}
    if route_key(connection_id, remote_addr) == route_key(other_id, other_addr) {
        law_route_key_injective(connection_id, remote_addr, other_id, other_addr);
    }
}

/// A new routing table holds no connection. The largest datagram has 1472 bytes.
pub proof fn law_no_routes(key: RouteKey)
    ensures
        !no_routes().contains_key(key),
        MAX_DATAGRAM_SIZE == 1472,
{
}

} // verus!
