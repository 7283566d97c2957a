//! What the task that receives packets does next.
//!
//! The task reads datagrams, hands SYN packets to the listeners of the socket, and all other
//! packets to the mailbox of their connection. It tells what happened, and is told what to do:
//! by [`PacketReceiver::poll`], and by [`UtpSocket::dispatch`] and [`UtpSocket::delivered`]
//! where the routing table has a say.

use crate::addr::SocketAddr;
use crate::buffer::contents;
use crate::error::PacketParseError;
use crate::packet::{Packet, PacketType};
use crate::socket::packet_sender::{sends_first, Outgoing, SenderAction};
use crate::socket::{route_key, UtpSocket};
use crate::table::RouteKey;
use crate::wire::{decode, law_decode_encode, representable, PacketView};
use bytes::Bytes;
use vstd::prelude::*;

verus! {

/// What happened to the task that receives packets.
pub enum ReceiverEvent {
    /// The task was woken up.
    Woken { socket_alive: bool },
    /// There may be a datagram to read.
    Ready,
    /// It could not be found out whether there is a datagram to read.
    ReadyFailed,
    /// There is no datagram to read yet.
    ReadyPending,
    /// A datagram was read.
    Received { payload: Bytes, remote_addr: SocketAddr },
    /// The datagram could not be read.
    ReceiveFailed,
    /// There was no datagram to read after all.
    ReceivePending,
    /// A datagram or a packet was dropped.
    Dropped,
    /// A SYN packet was handed to the listeners.
    SynSaved,
    /// Nobody can listen for SYN packets any more.
    SynQueueClosed,
    /// The routing table does not exist any more.
    RoutingTableGone,
}

/// What the task that receives packets is to do.
pub enum ReceiverAction {
    /// Find out whether there is a datagram to read.
    PollReady,
    /// Read a datagram.
    PollReceive,
    /// Drop the datagram, which is no packet.
    Discard(PacketParseError),
    /// Hand a SYN packet to the listeners.
    SaveSyn(Packet, SocketAddr),
    /// Look for the connection of a packet in the routing table.
    Route(Packet, SocketAddr),
    /// Put a packet in a mailbox.
    Deliver { mailbox: u64, packet: Packet, remote_addr: SocketAddr },
    /// Drop a packet, which belongs to no connection.
    NoConnection(Packet, SocketAddr),
    /// Wait to be woken up.
    Sleep,
    /// End the task.
    ShutDown,
}

/// The task that receives packets.
pub struct PacketReceiver;

impl PacketReceiver {
    /// What to do after an event.
    pub fn poll(event: ReceiverEvent) -> (action: ReceiverAction)
        ensures
            match event {
                ReceiverEvent::Woken { socket_alive } => if socket_alive {
                    action is PollReady
                } else {
                    action is ShutDown
                },
                ReceiverEvent::Ready => action is PollReceive,
                ReceiverEvent::ReadyFailed => action is ShutDown,
                ReceiverEvent::ReadyPending => action is Sleep,
                ReceiverEvent::Received { payload, remote_addr } => received(
                    contents(payload),
                    remote_addr,
                    action,
                ),
                ReceiverEvent::ReceiveFailed => action is PollReady,
                ReceiverEvent::ReceivePending => action is Sleep,
                ReceiverEvent::Dropped => action is PollReady,
                ReceiverEvent::SynSaved => action is PollReady,
                ReceiverEvent::SynQueueClosed => action is ShutDown,
                ReceiverEvent::RoutingTableGone => action is ShutDown,
            },
    {
        match event {
            // Without the socket there is nothing left to do.
            ReceiverEvent::Woken { socket_alive: false } => ReceiverAction::ShutDown,
            ReceiverEvent::Woken { socket_alive: true } => ReceiverAction::PollReady,
            ReceiverEvent::Ready => ReceiverAction::PollReceive,
            // The driver of the socket might have ended, and then nothing else can be done.
            ReceiverEvent::ReadyFailed => ReceiverAction::ShutDown,
            ReceiverEvent::ReadyPending => ReceiverAction::Sleep,
            ReceiverEvent::Received { payload, remote_addr } => {
                match Packet::try_from(payload) {
                    Err(error) => ReceiverAction::Discard(error),
                    Ok(packet) => if packet.packet_type == PacketType::Syn {
                        ReceiverAction::SaveSyn(packet, remote_addr)
                    } else {
                        ReceiverAction::Route(packet, remote_addr)
                    },
                }
            },
            ReceiverEvent::ReceiveFailed => ReceiverAction::PollReady,
            ReceiverEvent::ReceivePending => ReceiverAction::Sleep,
            ReceiverEvent::Dropped => ReceiverAction::PollReady,
            ReceiverEvent::SynSaved => ReceiverAction::PollReady,
            // The listeners and the routing table go with the socket.
            ReceiverEvent::SynQueueClosed => ReceiverAction::ShutDown,
            ReceiverEvent::RoutingTableGone => ReceiverAction::ShutDown,
        }
    }
}

/// What to do with a datagram: drop it where it is no packet, hand it to the listeners where
/// it is a SYN packet, and look for its connection otherwise.
pub open spec fn received(payload: Seq<u8>, from: SocketAddr, action: ReceiverAction) -> bool {
    match decode(payload) {
        Err(error) => action == ReceiverAction::Discard(error),
        Ok(view) => if view.packet_type == PacketType::Syn {
            action matches ReceiverAction::SaveSyn(packet, addr) && packet@ == view && addr == from
        } else {
            action matches ReceiverAction::Route(packet, addr) && packet@ == view && addr == from
        },
    }
}

/// What to do with a packet that is no SYN packet: put it in the mailbox of its connection, and
/// drop it where there is none.
pub open spec fn dispatched(
    routes: Map<RouteKey, u64>,
    packet: Packet,
    from: SocketAddr,
    action: ReceiverAction,
) -> bool {
    let key = route_key(packet.connection_id, from);
    if routes.contains_key(key) {
        action == (ReceiverAction::Deliver { mailbox: routes[key], packet, remote_addr: from })
    } else {
        action == ReceiverAction::NoConnection(packet, from)
    }
}

/// The routing table after a packet was put in the mailbox of its connection, or was not.
pub open spec fn routes_after(
    routes: Map<RouteKey, u64>,
    connection_id: u16,
    remote_addr: SocketAddr,
    accepted: bool,
) -> Map<RouteKey, u64> {
    if accepted {
        routes
    } else {
        routes.remove(route_key(connection_id, remote_addr))
    }
}

impl UtpSocket {
    /// What to do with a packet from the given address that is no SYN packet: put it in the
    /// mailbox of its connection, and drop it where there is none.
    pub fn dispatch(&self, packet: Packet, remote_addr: SocketAddr) -> (action: ReceiverAction)
        ensures
            dispatched(self.routes(), packet, remote_addr, action),
    {
        match self.mailbox(packet.connection_id, remote_addr) {
            Some(mailbox) => ReceiverAction::Deliver { mailbox, packet, remote_addr },
            None => ReceiverAction::NoConnection(packet, remote_addr),
        }
    }

    /// What to do after a packet was put in the mailbox of its connection, or was not because
    /// the mailbox does not exist any more. In that case the connection is stale, and leaves
    /// the routing table.
    pub fn delivered(&mut self, connection_id: u16, remote_addr: SocketAddr, accepted: bool) -> (
    action: ReceiverAction)
        ensures
            action is PollReady,
            final(self).address() == old(self).address(),
            final(self).routes() == routes_after(
                old(self).routes(),
                connection_id,
                remote_addr,
                accepted,
            ),
    {
        if !accepted {
            self.remove_connection(connection_id, remote_addr);
        }
        ReceiverAction::PollReady
    }
}

/// The packet that one task sends is the packet that another receives, where the datagram
/// arrives and the packet can be told from its bytes.
pub proof fn law_packet_travels(
    waiting: Seq<Outgoing>,
    payload: Bytes,
    remote_addr: SocketAddr,
    from: SocketAddr,
    action: ReceiverAction,
)
    requires
        waiting.len() > 0,
        representable(waiting[0].0),
        sends_first(waiting, SenderAction::Send(payload, remote_addr)),
        received(contents(payload), from, action),
    ensures
        if waiting[0].0.packet_type == PacketType::Syn {
            action matches ReceiverAction::SaveSyn(packet, addr) && packet@ == waiting[0].0
                && addr == from
        } else {
            action matches ReceiverAction::Route(packet, addr) && packet@ == waiting[0].0 && addr
                == from
        },
{
    law_decode_encode(waiting[0].0);
}

/// A datagram that is read, where it comes from, and whether the mailbox of its connection still
/// exists.
pub struct Datagram {
    pub payload: Seq<u8>,
    pub from: SocketAddr,
    pub accepted: bool,
}

/// What became of some datagrams: the routing table, what was put in mailboxes, and what was
/// handed to the listeners, oldest first.
pub struct Reception {
    pub routes: Map<RouteKey, u64>,
    pub delivered: Seq<(u64, PacketView)>,
    pub syns: Seq<(PacketView, SocketAddr)>,
}

impl Datagram {
    /// Whether this is a SYN packet.
    pub open spec fn is_syn(self) -> bool {
        decode(self.payload) matches Ok(p) && p.packet_type == PacketType::Syn
    }

    /// Whether this is a packet for a connection.
    pub open spec fn is_for(self, key: RouteKey) -> bool {
        decode(self.payload) matches Ok(p) && p.packet_type != PacketType::Syn && route_key(
            p.connection_id,
            self.from,
        ) == key
    }
}

impl Reception {
    /// What became of the datagrams before and one more.
    pub open spec fn after(self, d: Datagram) -> Self {
        match decode(d.payload) {
            Err(_) => self,
            Ok(p) => {
                let key = route_key(p.connection_id, d.from);
                if p.packet_type == PacketType::Syn {
                    Reception { syns: self.syns.push((p, d.from)), ..self }
                } else if !self.routes.contains_key(key) {
                    self
                } else if d.accepted {
                    Reception { delivered: self.delivered.push((self.routes[key], p)), ..self }
                } else {
                    Reception { routes: self.routes.remove(key), ..self }
                }
            },
        }
    }
}

/// What becomes of some datagrams, given the routing table.
pub open spec fn reception(routes: Map<RouteKey, u64>, datagrams: Seq<Datagram>) -> Reception
    decreases datagrams.len(),
{
    if datagrams.len() == 0 {
        Reception { routes, delivered: Seq::empty(), syns: Seq::empty() }
    } else {
        reception(routes, datagrams.drop_last()).after(datagrams.last())
    }
}

/// The SYN packets among some datagrams, in their order.
pub open spec fn syns_among(datagrams: Seq<Datagram>) -> Seq<(PacketView, SocketAddr)>
    decreases datagrams.len(),
{
    if datagrams.len() == 0 {
        Seq::empty()
    } else {
        let front = syns_among(datagrams.drop_last());
        let d = datagrams.last();
        if d.is_syn() {
            front.push((decode(d.payload)->Ok_0, d.from))
        } else {
            front
        }
    }
}

/// Whether a connection is found to be stale: a packet for it finds no mailbox.
pub open spec fn stale(datagrams: Seq<Datagram>, key: RouteKey) -> bool {
    exists|i: int|
        0 <= i < datagrams.len() && (#[trigger] datagrams[i]).is_for(key) && !datagrams[i].accepted
}

/// The packets for a connection among some datagrams, in their order, until it is found to be
/// stale.
pub open spec fn packets_for(datagrams: Seq<Datagram>, key: RouteKey) -> Seq<PacketView>
    decreases datagrams.len(),
{
    if datagrams.len() == 0 {
        Seq::empty()
    } else {
        let front = packets_for(datagrams.drop_last(), key);
        let d = datagrams.last();
        if d.is_for(key) && !stale(datagrams, key) {
            front.push(decode(d.payload)->Ok_0)
        } else {
            front
        }
    }
}

/// The packets in a mailbox, in the order in which they were put there.
pub open spec fn mail(delivered: Seq<(u64, PacketView)>, mailbox: u64) -> Seq<PacketView>
    decreases delivered.len(),
{
    if delivered.len() == 0 {
        Seq::empty()
    } else {
        let front = mail(delivered.drop_last(), mailbox);
        if delivered.last().0 == mailbox {
            front.push(delivered.last().1)
        } else {
            front
        }
    }
}

/// Whether a connection is in a routing table and shares its mailbox with no other.
pub open spec fn has_own_mailbox(routes: Map<RouteKey, u64>, key: RouteKey) -> bool {
    &&& routes.contains_key(key)
    &&& forall|k: RouteKey| #[trigger]
        routes.contains_key(k) && k != key ==> routes[k] != routes[key]
}

/// What becomes of a datagram is what the task is told to do with it: `first` after it was read,
/// and `second` after the routing table was looked at.
pub proof fn law_reception_step(
    before: Reception,
    d: Datagram,
    first: ReceiverAction,
    second: ReceiverAction,
)
    requires
        received(d.payload, d.from, first),
        first matches ReceiverAction::Route(packet, from) ==> dispatched(
            before.routes,
            packet,
            from,
            second,
        ),
    ensures
        match first {
            ReceiverAction::Discard(_) => before.after(d) == before,
            ReceiverAction::SaveSyn(packet, from) => before.after(d) == (Reception {
                syns: before.syns.push((packet@, from)),
                ..before
            }),
            ReceiverAction::Route(..) => match second {
                ReceiverAction::Deliver { mailbox, packet, remote_addr } => before.after(d) == (
                Reception {
                    routes: routes_after(
                        before.routes,
                        packet.connection_id,
                        remote_addr,
                        d.accepted,
                    ),
                    delivered: if d.accepted {
                        before.delivered.push((mailbox, packet@))
                    } else {
                        before.delivered
                    },
                    ..before
                }),
                ReceiverAction::NoConnection(..) => before.after(d) == before,
                _ => false,
            },
            _ => false,
        },
{
}

/// Every connection gets the packets with its ID and from its address in its mailbox, all of
/// them and no others, in the order in which they came in. SYN packets go to the listeners, all
/// of them and no others, in their order. The connections that leave the routing table are those
/// that are found to be stale.
pub proof fn law_reception(routes: Map<RouteKey, u64>, datagrams: Seq<Datagram>)
    ensures
        ({
            let r = reception(routes, datagrams);
            &&& r.syns == syns_among(datagrams)
            &&& forall|key: RouteKey| #[trigger]
                r.routes.contains_key(key) <==> routes.contains_key(key) && !stale(datagrams, key)
            &&& forall|key: RouteKey| #[trigger]
                r.routes.contains_key(key) ==> r.routes[key] == routes[key]
            &&& forall|key: RouteKey| #[trigger]
                has_own_mailbox(routes, key) ==> mail(r.delivered, routes[key]) == packets_for(
                    datagrams,
                    key,
                )
            &&& forall|i: int|
                0 <= i < r.delivered.len() ==> routes.contains_value(
                    (#[trigger] r.delivered[i]).0,
                )
        }),
    decreases datagrams.len(),
{
    let r = reception(routes, datagrams);
    if datagrams.len() > 0 {
        let front = datagrams.drop_last();
        let d = datagrams.last();
        law_reception(routes, front);
        let before = reception(routes, front);
        assert forall|key: RouteKey| stale(datagrams, key) == (stale(front, key) || d.is_for(key)
            && !d.accepted) by {
            lemma_stale_grows(datagrams, key);
        }
        assert forall|key: RouteKey| #[trigger] has_own_mailbox(routes, key) implies mail(
            r.delivered,
            routes[key],
        ) == packets_for(datagrams, key) by {
            lemma_mail_grows(before, d, routes[key]);
        }
        assert forall|i: int| 0 <= i < r.delivered.len() implies routes.contains_value(
            (#[trigger] r.delivered[i]).0,
        ) by {
            if i < before.delivered.len() {
                assert(r.delivered[i] == before.delivered[i]);
            } else {
                let p = decode(d.payload)->Ok_0;
                assert(routes.contains_key(route_key(p.connection_id, d.from)));
            }
        }
    }
}

/// A connection is found to be stale by the last datagram, or was before.
proof fn lemma_stale_grows(datagrams: Seq<Datagram>, key: RouteKey)
    requires
        datagrams.len() > 0,
    ensures
        stale(datagrams, key) == (stale(datagrams.drop_last(), key) || datagrams.last().is_for(key)
            && !datagrams.last().accepted),
{
    let front = datagrams.drop_last();
    let last = datagrams.len() - 1;
    if stale(front, key) {
        let i = choose|i: int|
            0 <= i < front.len() && (#[trigger] front[i]).is_for(key) && !front[i].accepted;
        assert(datagrams[i] == front[i]);
    }
    if datagrams.last().is_for(key) && !datagrams.last().accepted {
        assert(datagrams[last] == datagrams.last());
    }
    if stale(datagrams, key) {
        let i = choose|i: int|
            0 <= i < datagrams.len() && (#[trigger] datagrams[i]).is_for(key)
                && !datagrams[i].accepted;
        if i < last {
            assert(front[i] == datagrams[i]);
        }
    }
}

/// What a datagram adds to a mailbox.
proof fn lemma_mail_grows(before: Reception, d: Datagram, mailbox: u64)
    ensures
        mail(before.after(d).delivered, mailbox) == match decode(d.payload) {
            Ok(p) => {
                let key = route_key(p.connection_id, d.from);
                if p.packet_type != PacketType::Syn && before.routes.contains_key(key)
                    && d.accepted && before.routes[key] == mailbox {
                    mail(before.delivered, mailbox).push(p)
                } else {
                    mail(before.delivered, mailbox)
                }
            },
            Err(_) => mail(before.delivered, mailbox),
        },
{
    let after = before.after(d).delivered;
    if after != before.delivered {
        assert(after.drop_last() =~= before.delivered);
    }
}

/// A datagram that is no packet is dropped, with the error that was found in it. A SYN packet goes
/// to the listeners, and any other packet to its connection, both as they are in the datagram and
/// with the address that it came from.
pub proof fn law_received(payload: Seq<u8>, from: SocketAddr, action: ReceiverAction)
    requires
        received(payload, from, action),
    ensures
        match action {
            ReceiverAction::Discard(error) => decode(payload) == Err::<PacketView, _>(error),
            ReceiverAction::SaveSyn(packet, addr) => {
                &&& decode(payload) == Ok::<_, PacketParseError>(packet@)
                &&& packet.packet_type == PacketType::Syn
                &&& addr == from
            },
            ReceiverAction::Route(packet, addr) => {
                &&& decode(payload) == Ok::<_, PacketParseError>(packet@)
                &&& packet.packet_type != PacketType::Syn
                &&& addr == from
            },
            _ => false,
        },
{
}

/// A packet goes to the mailbox of the connection with its ID to the address that it came from,
/// as it is. It is dropped only where there is no such connection.
pub proof fn law_dispatched(
    routes: Map<RouteKey, u64>,
    packet: Packet,
    from: SocketAddr,
    action: ReceiverAction,
)
    requires
        dispatched(routes, packet, from, action),
    ensures
        match action {
            ReceiverAction::Deliver { mailbox, packet: delivered, remote_addr } => {
                &&& routes.contains_key(route_key(packet.connection_id, from))
                &&& mailbox == routes[route_key(packet.connection_id, from)]
                &&& delivered == packet
                &&& remote_addr == from
            },
            ReceiverAction::NoConnection(dropped, addr) => {
                &&& !routes.contains_key(route_key(packet.connection_id, from))
                &&& dropped == packet
                &&& addr == from
            },
            _ => false,
        },
{
}

/// A connection leaves the routing table where its mailbox does not take a packet, and no other
/// does. Nothing changes where it does.
pub proof fn law_routes_after(
    routes: Map<RouteKey, u64>,
    connection_id: u16,
    remote_addr: SocketAddr,
    accepted: bool,
    other: RouteKey,
)
    ensures
        ({
            let after = routes_after(routes, connection_id, remote_addr, accepted);
            let key = route_key(connection_id, remote_addr);
            &&& accepted ==> after == routes
            &&& !accepted ==> !after.contains_key(key)
            &&& other != key ==> after.contains_key(other) == routes.contains_key(other)
            &&& after.contains_key(other) ==> after[other] == routes[other]
        }),
{
}

} // verus!
