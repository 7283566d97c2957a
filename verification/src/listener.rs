//! Connections that a peer asks for.

use crate::addr::SocketAddr;
use crate::buffer;
use crate::packet::{extension_views, Extension, Packet, PacketType};
use crate::random::random_u16;
use crate::sequence::seq_plus;
use crate::socket::{route_key, UtpSocket};
use crate::stream::{fresh_stream, new_stream, StreamView, UtpStream};
use crate::wire::PacketView;
use vstd::prelude::*;

verus! {

/// Accepts connections on a socket.
pub struct UtpListener {
    pub local_addr: SocketAddr,
}

/// The answer to a packet that asks for a connection.
pub open spec fn syn_ack_packet(syn: PacketView, seq_number: u16) -> PacketView {
    PacketView {
        packet_type: PacketType::State,
        version: 1,
        connection_id: syn.connection_id,
        timestamp_micros: 0,
        timestamp_delta_micros: 0,
        window_size: 0,
        seq_number,
        ack_number: syn.seq_number,
        extensions: Seq::empty(),
        data: Seq::empty(),
    }
}

/// The connection that a peer asked for, when the answer has the given sequence number.
pub open spec fn accepted_stream(
    local_addr: SocketAddr,
    remote_addr: SocketAddr,
    syn: PacketView,
    seq_number: u16,
) -> StreamView {
    fresh_stream(
        local_addr,
        remote_addr,
        seq_plus(syn.connection_id, 1),
        syn.connection_id,
        seq_plus(seq_number, 1),
        syn.seq_number,
    )
}

impl UtpListener {
    /// Accepts connections on the given socket.
    pub fn new(socket: &UtpSocket) -> (r: Self)
        ensures
            r.local_addr == socket.address(),
    {
        Self { local_addr: socket.local_addr() }
    }

    /// The address that the socket is bound to.
    pub fn local_addr(&self) -> (r: SocketAddr)
        ensures
            r == self.local_addr,
    {
        self.local_addr
    }

    /// Accepts a connection that a peer asked for with a Syn packet. It is entered in the
    /// routing table of the socket, and the packet is to be sent back. The connection must not
    /// be in the table already.
    pub fn accept(
        &self,
        socket: &mut UtpSocket,
        syn: &Packet,
        remote_addr: SocketAddr,
        mailbox: u64,
    ) -> (r: (UtpStream, Packet))
        requires
            !old(socket).routes().contains_key(
                route_key(seq_plus(syn.connection_id, 1), remote_addr),
            ),
        ensures
            r.0@ == accepted_stream(self.local_addr, remote_addr, syn@, r.1@.seq_number),
            r.1@ == syn_ack_packet(syn@, r.1@.seq_number),
            final(socket).address() == old(socket).address(),
            final(socket).routes() == old(socket).routes().insert(
                route_key(seq_plus(syn.connection_id, 1), remote_addr),
                mailbox,
            ),
    {
        self.accept_with(socket, syn, remote_addr, mailbox, random_u16())
    }

    /// Accepts a connection as [`Self::accept`] does, with the given sequence number in the
    /// answer.
    pub fn accept_with(
        &self,
        socket: &mut UtpSocket,
        syn: &Packet,
        remote_addr: SocketAddr,
        mailbox: u64,
        seq_number: u16,
    ) -> (r: (UtpStream, Packet))
        requires
            !old(socket).routes().contains_key(
                route_key(seq_plus(syn.connection_id, 1), remote_addr),
            ),
        ensures
            r.0@ == accepted_stream(self.local_addr, remote_addr, syn@, seq_number),
            r.1@ == syn_ack_packet(syn@, seq_number),
            final(socket).address() == old(socket).address(),
            final(socket).routes() == old(socket).routes().insert(
                route_key(seq_plus(syn.connection_id, 1), remote_addr),
                mailbox,
            ),
    {
        let connection_id_recv = syn.connection_id.wrapping_add(1);
        let connection_id_send = syn.connection_id;
        let ack_number = syn.seq_number;
        let _ = socket.insert_connection(connection_id_recv, remote_addr, mailbox);
        let extensions: Vec<Extension> = Vec::new();
        assert(extension_views(extensions@) =~= Seq::empty());
        let syn_ack = Packet::new(
            PacketType::State,
            1,
            connection_id_send,
            0,
            0,
            0,
            seq_number,
            ack_number,
            extensions,
            buffer::empty(),
        );
        let seq_number = seq_number.wrapping_add(1);
        let stream = new_stream(
            self.local_addr,
            remote_addr,
            connection_id_recv,
            connection_id_send,
            seq_number,
            ack_number,
        );
        (stream, syn_ack)
    }
}

/// Every packet that asks for a connection is answered with a State packet that acknowledges it,
/// under the ID that the peer waits for, and that consists of a header alone.
pub proof fn law_syn_ack_packet(syn: PacketView, seq_number: u16)
    ensures
        ({
            let p = syn_ack_packet(syn, seq_number);
            &&& p.packet_type == PacketType::State
            &&& p.version == 1
            &&& p.connection_id == syn.connection_id
            &&& p.timestamp_micros == 0
            &&& p.timestamp_delta_micros == 0
            &&& p.window_size == 0
            &&& p.seq_number == seq_number
            &&& p.ack_number == syn.seq_number
            &&& p.extensions.len() == 0
            &&& p.data.len() == 0
        }),
{
}

/// A connection that was accepted sends under the ID of the peer, and receives under the one after
/// it. Its next packet has the number after that of the answer, and the packet that asked for it
/// is the last that came in.
pub proof fn law_accepted_stream(
    local_addr: SocketAddr,
    remote_addr: SocketAddr,
    syn: PacketView,
    seq_number: u16,
)
    ensures
        ({
            let s = accepted_stream(local_addr, remote_addr, syn, seq_number);
            &&& s.local_addr == local_addr
            &&& s.remote_addr == remote_addr
            &&& s.connection_id_send == syn.connection_id
            &&& s.connection_id_recv == (syn.connection_id + 1) % 0x1_0000
            &&& s.seq_number == (seq_number + 1) % 0x1_0000
            &&& s.ack_number == syn.seq_number
            &&& forall|q: u16| !#[trigger] s.inbound.contains_key(q)
            &&& s.received.len() == 0
            &&& s.unacked.len() == 0
            &&& !s.is_shutdown
        }),
{
}

} // verus!
