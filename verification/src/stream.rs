//! Connections to a peer.

use crate::addr::SocketAddr;
use crate::buffer;
use crate::buffer::{buffer_limit, contents, contents_mut};
use crate::congestion::{nothing_observed, CongestionController, CongestionView};
use crate::packet::{extension_views, Extension, Packet, PacketType};
use crate::sequence::{
    lemma_distance_after_steps, lemma_steps_add, lemma_steps_of_distance, seq_distance, seq_plus,
    SEQUENCE_NUMBERS,
};
use crate::socket::{route_key, UtpSocket, MAX_DATAGRAM_SIZE};
use crate::time::current_micros;
use crate::wire::{ExtensionView, PacketView, PACKET_HEADER_LEN};
use bytes::{Bytes, BytesMut};
use std::collections::{HashMap, VecDeque};
use vstd::prelude::*;

verus! {

broadcast use vstd::std_specs::hash::group_hash_axioms;

/// The number of bytes of data in the largest packet.
pub const MAX_DATA_SEGMENT_SIZE: usize = MAX_DATAGRAM_SIZE - PACKET_HEADER_LEN;

/// How far the sequence number of a data packet may be from that of the last one acknowledged.
pub const ACCEPTABLE_DATA_DISTANCE: u16 = 128;

/// How many packets an acknowledgement may be behind those that are in flight.
pub const ACCEPTABLE_ACK_LEEWAY: usize = 3;

/// A connection, with its buffers as sequences and maps.
pub struct StreamView {
    pub local_addr: SocketAddr,
    pub remote_addr: SocketAddr,
    pub connection_id_recv: u16,
    pub connection_id_send: u16,
    pub seq_number: u16,
    pub ack_number: u16,
    pub inbound: Map<u16, Seq<u8>>,
    pub received: Seq<u8>,
    pub unacked: Seq<(u16, Seq<u8>)>,
    pub congestion: CongestionView,
    pub is_shutdown: bool,
}

/// A packet that came in, and when.
pub type Arrival = (PacketView, u32);

/// Whether a connection knows what to do with a packet.
pub open spec fn is_data_or_state(packet_type: PacketType) -> bool {
    packet_type == PacketType::Data || packet_type == PacketType::State
}

/// Whether no peer that keeps to the protocol would send a packet now.
pub open spec fn suspicious(s: StreamView, p: PacketView) -> bool {
    if p.packet_type == PacketType::Data {
        // Its number is neither shortly before nor shortly after what was acknowledged last.
        &&& seq_distance(p.seq_number, s.ack_number) > ACCEPTABLE_DATA_DISTANCE
        &&& seq_distance(s.ack_number, p.seq_number) > ACCEPTABLE_DATA_DISTANCE
    } else {
        // It acknowledges what was not sent, or what was acknowledged long ago.
        !timely(s.unacked.len(), p.ack_number, s.seq_number)
    }
}

/// Whether an acknowledgement names a packet in flight, or one that was sent shortly before.
pub open spec fn timely(in_flight: nat, ack_number: u16, seq_number: u16) -> bool {
    1 <= seq_distance(ack_number, seq_number) <= in_flight + ACCEPTABLE_ACK_LEEWAY
}

/// Whether an acknowledgement covers a packet in flight. The next packet to be sent has the
/// number `seq_number`, and the further a number is before that, the earlier it was sent: a
/// timely acknowledgement covers what was sent no later than the packet that it names. One that
/// is not timely goes by the numbers alone.
pub open spec fn covered(number: u16, ack_number: u16, seq_number: u16, timely: bool) -> bool {
    if timely {
        seq_distance(ack_number, seq_number) <= seq_distance(number, seq_number)
    } else {
        number <= ack_number
    }
}

/// The number of packets at the front of those in flight that an acknowledgement covers.
pub open spec fn acked_count(
    unacked: Seq<(u16, Seq<u8>)>,
    ack_number: u16,
    seq_number: u16,
    timely: bool,
) -> nat
    decreases unacked.len(),
{
    if unacked.len() == 0 || !covered(unacked[0].0, ack_number, seq_number, timely) {
        0
    } else {
        1 + acked_count(unacked.skip(1), ack_number, seq_number, timely)
    }
}

/// The connection after it handled a packet: data is kept until it is its turn, and what was
/// acknowledged is forgotten.
pub open spec fn handled(s: StreamView, p: PacketView) -> StreamView {
    if p.packet_type == PacketType::Data {
        StreamView { inbound: s.inbound.insert(p.seq_number, p.data), ..s }
    } else {
        StreamView {
            unacked: s.unacked.skip(
                acked_count(
                    s.unacked,
                    p.ack_number,
                    s.seq_number,
                    timely(s.unacked.len(), p.ack_number, s.seq_number),
                ) as int,
            ),
            ..s
        }
    }
}

/// The connection after a packet came in: a suspicious one is ignored.
pub open spec fn taken(s: StreamView, arrival: Arrival) -> StreamView {
    let (p, received_at) = arrival;
    if suspicious(s, p) {
        s
    } else {
        handled(StreamView { congestion: s.congestion.observe(received_at, p), ..s }, p)
    }
}

/// The connection after some packets came in.
pub open spec fn taken_all(s: StreamView, arrivals: Seq<Arrival>) -> StreamView
    decreases arrivals.len(),
{
    if arrivals.len() == 0 {
        s
    } else {
        taken(taken_all(s, arrivals.drop_last()), arrivals.last())
    }
}

/// The connection after some packets came in. It is shut down where no more can come.
pub open spec fn processed(s: StreamView, arrivals: Seq<Arrival>, closed: bool) -> StreamView {
    let after = taken_all(s, arrivals);
    StreamView { is_shutdown: after.is_shutdown || closed, ..after }
}

/// How many sequence numbers in a row there is data for, from `next` on.
pub open spec fn run_length(inbound: Map<u16, Seq<u8>>, next: u16, limit: nat) -> nat
    decreases limit,
{
    if limit == 0 || !inbound.contains_key(next) {
        0
    } else {
        1 + run_length(inbound, seq_plus(next, 1), (limit - 1) as nat)
    }
}

/// The data of `n` sequence numbers in a row, from `next` on.
pub open spec fn run_data(inbound: Map<u16, Seq<u8>>, next: u16, n: nat) -> Seq<u8>
    decreases n,
{
    if n == 0 {
        Seq::empty()
    } else {
        run_data(inbound, next, (n - 1) as nat) + inbound[seq_plus(next, n - 1)]
    }
}

/// What is left when the data of `n` sequence numbers in a row is taken, from `next` on.
pub open spec fn run_taken(inbound: Map<u16, Seq<u8>>, next: u16, n: nat) -> Map<u16, Seq<u8>> {
    Map::new(
        |k: u16| inbound.contains_key(k) && seq_distance(next, k) >= n,
        |k: u16| inbound[k],
    )
}

/// How many packets of data can be passed on, because all before them came in.
pub open spec fn in_order(s: StreamView) -> nat {
    run_length(s.inbound, seq_plus(s.ack_number, 1), 0x1_0000)
}

/// The data that can be passed on.
pub open spec fn in_order_data(s: StreamView) -> Seq<u8> {
    run_data(s.inbound, seq_plus(s.ack_number, 1), in_order(s))
}

/// The connection after all data that is in order was passed on.
pub open spec fn assembled(s: StreamView) -> StreamView {
    StreamView {
        ack_number: seq_plus(s.ack_number, in_order(s) as int),
        inbound: run_taken(s.inbound, seq_plus(s.ack_number, 1), in_order(s)),
        received: s.received + in_order_data(s),
        ..s
    }
}

/// Whether a buffer can grow to hold the data that can be passed on, after what was passed on.
pub open spec fn assembly_fits(s: StreamView) -> bool {
    s.received.len() + in_order_data(s).len() <= buffer_limit()
}

/// A packet that a connection sends.
pub open spec fn packet_to_send(
    s: StreamView,
    packet_type: PacketType,
    extensions: Seq<ExtensionView>,
    data: Seq<u8>,
    now: u32,
) -> PacketView {
    PacketView {
        packet_type,
        version: 1,
        connection_id: s.connection_id_send,
        timestamp_micros: now,
        timestamp_delta_micros: 0,
        window_size: 0,
        seq_number: s.seq_number,
        ack_number: s.ack_number,
        extensions,
        data,
    }
}

/// The acknowledgement of the last packet of data that was passed on.
pub open spec fn ack_packet(s: StreamView, now: u32) -> PacketView {
    packet_to_send(s, PacketType::State, Seq::empty(), Seq::empty(), now)
}

/// A packet with the given data.
pub open spec fn data_packet(s: StreamView, data: Seq<u8>, now: u32) -> PacketView {
    packet_to_send(s, PacketType::Data, Seq::empty(), data, now)
}

/// The connection after a packet with the given data was sent.
pub open spec fn data_sent(s: StreamView, data: Seq<u8>) -> StreamView {
    StreamView {
        unacked: s.unacked.push((s.seq_number, data)),
        seq_number: seq_plus(s.seq_number, 1),
        ..s
    }
}

/// The part of a buffer that goes in the packet that starts at `written`.
pub open spec fn segment(buf: Seq<u8>, written: int) -> Seq<u8> {
    if buf.len() - written > MAX_DATA_SEGMENT_SIZE {
        buf.subrange(written, written + MAX_DATA_SEGMENT_SIZE)
    } else {
        buf.subrange(written, buf.len() as int)
    }
}

/// Whether a connection passes on all data that is in order, and acknowledges it. Where no more
/// packets can come, nothing is done, and the end of the data is reached.
pub open spec fn read_begins(
    before: StreamView,
    after: StreamView,
    closed: bool,
    now: u32,
    action: ReadAction,
) -> bool {
    if closed {
        action is Eof && after == before
    } else {
        &&& after == assembled(before)
        &&& action matches ReadAction::SendAck(packet) && packet@ == ack_packet(after, now)
    }
}

/// Whether an action sends the next part of a buffer, `written` bytes of which are sent. It ends
/// the write where there is none, and where the connection is shut down.
pub open spec fn write_goes_on(
    s: StreamView,
    buf: Seq<u8>,
    written: usize,
    now: u32,
    action: WriteAction,
) -> bool {
    if s.is_shutdown {
        action == WriteAction::Done(0)
    } else if written == buf.len() {
        action == WriteAction::Done(written)
    } else {
        action matches WriteAction::Send(packet, data) && contents(data) == segment(
            buf,
            written as int,
        ) && packet@ == data_packet(s, contents(data), now)
    }
}

/// What to do to read from a connection.
pub enum ReadAction {
    /// There will be no more data.
    Eof,
    /// Send an acknowledgement.
    SendAck(Packet),
}

/// What came of reading from a connection.
pub enum ReadOutcome {
    /// The acknowledgement could not be sent.
    AckFailed,
    /// There is no data yet.
    Pending,
    /// Data.
    Data(BytesMut),
}

/// What to do to write to a connection.
pub enum WriteAction {
    /// Nothing is left to do, and so many bytes were written.
    Done(usize),
    /// Send a packet, with the given data.
    Send(Packet, Bytes),
}

/// Whether all data that was written has been acknowledged.
#[derive(Debug, Clone, Copy, PartialEq, Eq, Structural)]
pub enum FlushOutcome {
    Flushed,
    Pending,
}

/// A connection to a peer.
pub struct UtpStream {
    pub congestion_controller: CongestionController,
    pub local_addr: SocketAddr,
    pub remote_addr: SocketAddr,
    pub connection_id_recv: u16,
    pub connection_id_send: u16,
    /// Sequence number of the next packet to send.
    pub seq_number: u16,
    /// Sequence number of the last packet of data that was passed on.
    pub ack_number: u16,
    /// Data that came in and is not passed on yet, by sequence number.
    pub inbound_data: HashMap<u16, Bytes>,
    /// Data that was passed on and is not read yet.
    pub received_data: BytesMut,
    /// Data that is in flight, oldest first, with its sequence number.
    pub unacked_data: VecDeque<(u16, Bytes)>,
    pub is_shutdown: bool,
}

/// The data in a map.
pub open spec fn inbound_view(m: Map<u16, Bytes>) -> Map<u16, Seq<u8>> {
    Map::new(|k: u16| m.contains_key(k), |k: u16| contents(m[k]))
}

/// The data in a queue.
pub open spec fn unacked_view(s: Seq<(u16, Bytes)>) -> Seq<(u16, Seq<u8>)> {
    Seq::new(s.len(), |i: int| (s[i].0, contents(s[i].1)))
}

impl View for UtpStream {
    type V = StreamView;

    open spec fn view(&self) -> StreamView {
        StreamView {
            local_addr: self.local_addr,
            remote_addr: self.remote_addr,
            connection_id_recv: self.connection_id_recv,
            connection_id_send: self.connection_id_send,
            seq_number: self.seq_number,
            ack_number: self.ack_number,
            inbound: inbound_view(self.inbound_data@),
            received: contents_mut(self.received_data),
            unacked: unacked_view(self.unacked_data@),
            congestion: self.congestion_controller@,
            is_shutdown: self.is_shutdown,
        }
    }
}

impl UtpStream {
    /// A connection with the given buffers.
    pub fn new(
        local_addr: SocketAddr,
        connection_id_recv: u16,
        connection_id_send: u16,
        remote_addr: SocketAddr,
        seq_number: u16,
        ack_number: u16,
        inbound_data: HashMap<u16, Bytes>,
        received_data: BytesMut,
        unacked_data: VecDeque<(u16, Bytes)>,
    ) -> (r: Self)
        ensures
            r@ == (StreamView {
                local_addr,
                remote_addr,
                connection_id_recv,
                connection_id_send,
                seq_number,
                ack_number,
                inbound: inbound_view(inbound_data@),
                received: contents_mut(received_data),
                unacked: unacked_view(unacked_data@),
                congestion: nothing_observed(),
                is_shutdown: false,
            }),
    {
        Self {
            congestion_controller: CongestionController::new(),
            local_addr,
            remote_addr,
            connection_id_recv,
            connection_id_send,
            seq_number,
            ack_number,
            inbound_data,
            received_data,
            unacked_data,
            is_shutdown: false,
        }
    }

    /// The connection ID of the packets that the peer sends. It is the one in the routing table
    /// of the socket.
    pub fn connection_id_recv(&self) -> (r: u16)
        ensures
            r == self@.connection_id_recv,
    {
        self.connection_id_recv
    }

    /// The connection ID of the packets that are sent to the peer.
    pub fn connection_id_send(&self) -> (r: u16)
        ensures
            r == self@.connection_id_send,
    {
        self.connection_id_send
    }

    /// The address that the socket of this connection is bound to.
    pub fn local_addr(&self) -> (r: SocketAddr)
        ensures
            r == self@.local_addr,
    {
        self.local_addr
    }

    /// The address of the peer.
    pub fn remote_addr(&self) -> (r: SocketAddr)
        ensures
            r == self@.remote_addr,
    {
        self.remote_addr
    }

    /// Whether no peer that keeps to the protocol would send a packet now.
    pub fn is_suspicious(&self, packet: &Packet) -> (r: bool)
        requires
            is_data_or_state(packet.packet_type),
        ensures
            r == suspicious(self@, packet@),
    {
        match packet.packet_type {
            PacketType::Data => {
                let left_distance = self.ack_number.wrapping_sub(packet.seq_number);
                let right_distance = packet.seq_number.wrapping_sub(self.ack_number);
                left_distance > ACCEPTABLE_DATA_DISTANCE && right_distance
                    > ACCEPTABLE_DATA_DISTANCE
            },
            _ => {
                let left_distance = self.seq_number.wrapping_sub(packet.ack_number) as usize;
                left_distance == 0 || (left_distance > ACCEPTABLE_ACK_LEEWAY && left_distance
                    - ACCEPTABLE_ACK_LEEWAY > self.unacked_data.len())
            },
        }
    }

    /// Whether an acknowledgement covers a packet in flight.
    fn is_covered(&self, number: u16, ack_number: u16, timely: bool) -> (r: bool)
        ensures
            r == covered(number, ack_number, self@.seq_number, timely),
    {
        if timely {
            self.seq_number.wrapping_sub(ack_number) <= self.seq_number.wrapping_sub(number)
        } else {
            number <= ack_number
        }
    }

    /// Handles a packet: keeps its data until it is its turn, or forgets the data that it
    /// acknowledges.
    pub fn handle_packet(&mut self, packet: Packet)
        requires
            is_data_or_state(packet.packet_type),
        ensures
            final(self)@ == handled(old(self)@, packet@),
    {
        match packet.packet_type {
            PacketType::Data => {
                let seq_number = packet.seq_number;
                let _ = self.inbound_data.insert(seq_number, packet.data);
                assert(self@.inbound =~= old(self)@.inbound.insert(seq_number, packet@.data));
            },
            _ => {
                let ghost all = old(self)@.unacked;
                let ghost mut popped: int = 0;
                assert(all.skip(0) =~= all);
                let timely = !self.is_suspicious(&packet);
                while self.unacked_data.len() > 0 && self.is_covered(
                    self.unacked_data[0].0,
                    packet.ack_number,
                    timely,
                )
                    invariant
                        0 <= popped <= all.len(),
                        self@ == (StreamView { unacked: all.skip(popped), ..old(self)@ }),
                        popped + acked_count(
                            all.skip(popped),
                            packet.ack_number,
                            self.seq_number,
                            timely,
                        ) == acked_count(all, packet.ack_number, self.seq_number, timely),
                    decreases self.unacked_data.len(),
                {
                    let _ = self.unacked_data.pop_front();
                    proof {
                        let before = all.skip(popped);
                        assert(before.skip(1) =~= all.skip(popped + 1));
                        assert(self@.unacked =~= before.skip(1));
                        popped = popped + 1;
                    }
                }
            },
        }
    }

    /// Takes note of a packet that came in at the given time, and tells whether it is to be
    /// handled. A suspicious packet is not.
    pub fn poll_read_packet(&mut self, packet: &Packet, received_at: u32) -> (keep: bool)
        requires
            is_data_or_state(packet.packet_type),
        ensures
            keep == !suspicious(old(self)@, packet@),
            final(self)@ == if keep {
                StreamView {
                    congestion: old(self)@.congestion.observe(received_at, packet@),
                    ..old(self)@
                }
            } else {
                old(self)@
            },
    {
        if self.is_suspicious(packet) {
            return false;
        }
        self.congestion_controller.update_state(received_at, packet);
        true
    }

    /// Takes the packets that just came in, oldest first. `closed` tells whether no more can
    /// come. Nothing is done where the system clock reads a time before the UNIX epoch.
    pub fn process_packets(&mut self, packets: VecDeque<Packet>, closed: bool) -> (done: bool)
        requires
            forall|i: int|
                0 <= i < packets@.len() ==> is_data_or_state(
                    (#[trigger] packets@[i]).packet_type,
                ),
        ensures
            if done {
                exists|times: Seq<u32>|
                    times.len() == packets@.len() && final(self)@ == processed(
                        old(self)@,
                        #[trigger] arrivals_at(packets@, times),
                        closed,
                    )
            } else {
                packets@.len() > 0 && final(self)@ == old(self)@
            },
    {
        match Self::stamp(packets) {
            Some(stamped) => {
                let ghost times = Seq::new(stamped@.len(), |i: int| stamped@[i].1);
                assert(arrivals(stamped@) =~= arrivals_at(packets@, times));
                assert forall|i: int| 0 <= i < stamped@.len() implies is_data_or_state(
                    (#[trigger] stamped@[i]).0.packet_type,
                ) by {
                    assert(stamped@[i].0 == packets@[i]);
                }
                self.process_packets_at(stamped, closed);
                true
            },
            None => false,
        }
    }

    /// Packets, each with the current time, and `None` where the system clock reads a time
    /// before the UNIX epoch.
    fn stamp(packets: VecDeque<Packet>) -> (r: Option<VecDeque<(Packet, u32)>>)
        ensures
            match r {
                Some(stamped) => stamped@.len() == packets@.len() && forall|i: int|
                    0 <= i < packets@.len() ==> (#[trigger] stamped@[i]).0 == packets@[i],
                None => packets@.len() > 0,
            },
    {
        let ghost all = packets@;
        let ghost mut done: int = 0;
        let mut left = packets;
        let mut stamped: VecDeque<(Packet, u32)> = VecDeque::new();
        assert(all.skip(0) =~= all);
        while left.len() > 0
            invariant
                0 <= done <= all.len(),
                all == packets@,
                left@ == all.skip(done),
                stamped@.len() == done,
                forall|i: int| 0 <= i < done ==> (#[trigger] stamped@[i]).0 == all[i],
            decreases left.len(),
        {
            // The time is taken as close to the receipt of the packet as possible.
            let received_at = match current_micros() {
                Some(now) => now,
                None => {
                    return None;
                },
            };
            if let Some(packet) = left.pop_front() {
                proof {
                    assert(packet == all[done]);
                    assert(all.skip(done).subrange(1, all.skip(done).len() as int) =~= all.skip(
                        done + 1,
                    ));
                    done = done + 1;
                }
                stamped.push_back((packet, received_at));
            }
        }
        Some(stamped)
    }

    /// Takes the packets that came in, each with the time when it did, oldest first. `closed`
    /// tells whether no more can come.
    pub fn process_packets_at(&mut self, packets: VecDeque<(Packet, u32)>, closed: bool)
        requires
            forall|i: int|
                0 <= i < packets@.len() ==> is_data_or_state(
                    (#[trigger] packets@[i]).0.packet_type,
                ),
        ensures
            final(self)@ == processed(old(self)@, arrivals(packets@), closed),
    {
        let ghost all = packets@;
        let ghost mut done: int = 0;
        let mut packets = packets;
        assert(all.skip(0) =~= all);
        assert(arrivals(all.take(0)) =~= Seq::empty());
        while packets.len() > 0
            invariant
                0 <= done <= all.len(),
                packets@ == all.skip(done),
                self@ == taken_all(old(self)@, arrivals(all.take(done))),
                forall|i: int|
                    0 <= i < all.len() ==> is_data_or_state((#[trigger] all[i]).0.packet_type),
            decreases packets.len(),
        {
            if let Some((packet, received_at)) = packets.pop_front() {
                proof {
                    assert(packet == all[done].0);
                    assert(all.skip(done).subrange(1, all.skip(done).len() as int) =~= all.skip(
                        done + 1,
                    ));
                    let front = arrivals(all.take(done + 1));
                    assert(front.drop_last() =~= arrivals(all.take(done)));
                    assert(front.last() == (packet@, received_at));
                    done = done + 1;
                }
                if self.poll_read_packet(&packet, received_at) {
                    self.handle_packet(packet);
                }
            }
        }
        assert(all.take(done) =~= all);
        if closed {
            self.is_shutdown = true;
        }
    }

    /// Whether a buffer can grow to hold the data that can be passed on, after what was passed on.
    pub fn assembly_fits(&self) -> (r: bool)
        ensures
            r == assembly_fits(self@),
    {
        let limit: usize = buffer::growth_limit();
        let received = buffer::len_mut(&self.received_data);
        if received > limit {
            return false;
        }
        let ghost first = seq_plus(self@.ack_number, 1);
        let ghost inbound = self@.inbound;
        let ghost all = in_order(self@);
        let ghost mut k: nat = 0;
        let mut free: usize = limit - received;
        let mut left: u32 = SEQUENCE_NUMBERS;
        let mut next_seq_num = self.ack_number.wrapping_add(1);
        assert(seq_plus(first, 0) == first);
        while left > 0
            invariant_except_break
                left + k == SEQUENCE_NUMBERS,
                next_seq_num == seq_plus(first, k as int),
                k + run_length(inbound, next_seq_num, left as nat) == all,
            invariant
                first == seq_plus(self@.ack_number, 1),
                inbound == self@.inbound,
                all == in_order(self@),
                k <= all,
                self@.received.len() + run_data(inbound, first, k).len() + free == buffer_limit(),
            ensures
                k == all,
            decreases left,
        {
            match self.inbound_data.get(&next_seq_num) {
                None => {
                    break;
                },
                Some(data) => {
                    let length = buffer::len(data);
                    proof {
                        assert(inbound[next_seq_num] == contents(*data));
                        lemma_steps_add(first, k as int, 1);
                        lemma_run_data_grows(inbound, first, (k + 1) as nat, all);
                    }
                    if length > free {
                        return false;
                    }
                    free = free - length;
                    proof {
                        k = k + 1;
                    }
                },
            }
            left = left - 1;
            next_seq_num = next_seq_num.wrapping_add(1);
        }
        true
    }

    /// Passes on all data that is in order.
    fn assemble(&mut self)
        requires
            assembly_fits(old(self)@),
        ensures
            final(self)@ == assembled(old(self)@),
    {
        let ghost before = self@;
        let ghost first = seq_plus(before.ack_number, 1);
        let ghost all = in_order(before);
        let ghost mut k: nat = 0;
        let mut next_seq_num = self.ack_number.wrapping_add(1);
        proof {
            assert(seq_plus(first, 0) == first);
            assert(seq_plus(before.ack_number, 0) == before.ack_number);
            assert(run_taken(before.inbound, first, 0) =~= before.inbound);
            assert(before.received + run_data(before.inbound, first, 0) =~= before.received);
            lemma_run_length_limit(before.inbound, first, 0x1_0000);
        }
        loop
            invariant_except_break
                next_seq_num == seq_plus(first, k as int),
                k + run_length(before.inbound, next_seq_num, (0x1_0000 - k) as nat) == all,
            invariant
                before == old(self)@,
                assembly_fits(before),
                first == seq_plus(before.ack_number, 1),
                all == in_order(before),
                k <= all <= 0x1_0000,
                self@ == (StreamView {
                    ack_number: seq_plus(before.ack_number, k as int),
                    inbound: run_taken(before.inbound, first, k),
                    received: before.received + run_data(before.inbound, first, k),
                    ..before
                }),
            ensures
                k == all,
            decreases 0x1_0000 - k,
        {
            proof {
                lemma_distance_after_steps(first, k as int);
            }
            let ghost inbound = self@.inbound;
            let ghost map = self.inbound_data@;
            assert(inbound == inbound_view(map));
            match self.inbound_data.remove(&next_seq_num) {
                None => {
                    assert(self@.inbound =~= inbound);
                    assert(!inbound.contains_key(next_seq_num));
                    assert(k < 0x1_0000 ==> !before.inbound.contains_key(next_seq_num));
                    break;
                },
                Some(data) => {
                    proof {
                        assert(inbound.contains_key(next_seq_num));
                        assert(k < 0x1_0000);
                        assert(inbound[next_seq_num] == contents(map[next_seq_num]));
                        assert(before.inbound[next_seq_num] == contents(data));
                        lemma_run_data_grows(before.inbound, first, (k + 1) as nat, all);
                        lemma_steps_add(first, k as int, 1);
                        lemma_steps_add(before.ack_number, 1, k as int);
                    }
                    buffer::extend_from_slice(&mut self.received_data, buffer::as_slice(&data));
                    // The sequence number of the last packet that was passed on.
                    self.ack_number = next_seq_num;
                    proof {
                        assert forall|q: u16| #[trigger] seq_distance(first, q) == k implies q
                            == next_seq_num by {
                            lemma_steps_of_distance(first, q);
                        }
                        assert(self@.inbound =~= inbound.remove(next_seq_num));
                        assert(self@.inbound =~= run_taken(before.inbound, first, (k + 1) as nat));
                        assert(self@.received =~= before.received + run_data(
                            before.inbound,
                            first,
                            (k + 1) as nat,
                        ));
                        k = k + 1;
                    }
                },
            }
            next_seq_num = next_seq_num.wrapping_add(1);
        }
    }

    /// A packet to send to the peer.
    fn send_packet(
        &self,
        packet_type: PacketType,
        extensions: Vec<Extension>,
        data: Bytes,
        now: u32,
    ) -> (packet: Packet)
        ensures
            packet@ == packet_to_send(
                self@,
                packet_type,
                extension_views(extensions@),
                contents(data),
                now,
            ),
    {
        Packet::new(
            packet_type,
            1,
            self.connection_id_send(),
            now,
            0,
            0,
            self.seq_number,
            self.ack_number,
            extensions,
            data,
        )
    }

    /// The acknowledgement of the last packet of data that was passed on.
    pub fn send_ack(&self, now: u32) -> (packet: Packet)
        ensures
            packet@ == ack_packet(self@, now),
    {
        let extensions: Vec<Extension> = Vec::new();
        assert(extension_views(extensions@) =~= Seq::empty());
        self.send_packet(PacketType::State, extensions, buffer::empty(), now)
    }

    /// A packet with the given data. Once it is sent, [`Self::data_sent`] is to be told.
    pub fn send_data(&self, data: Bytes, now: u32) -> (packet: Packet)
        ensures
            packet@ == data_packet(self@, contents(data), now),
    {
        let extensions: Vec<Extension> = Vec::new();
        assert(extension_views(extensions@) =~= Seq::empty());
        self.send_packet(PacketType::Data, extensions, data, now)
    }

    /// Takes note that a packet with the given data was sent.
    pub fn data_sent(&mut self, data: Bytes)
        ensures
            final(self)@ == data_sent(old(self)@, contents(data)),
    {
        self.unacked_data.push_back((self.seq_number, data));
        assert(self@.unacked =~= old(self)@.unacked.push((self.seq_number, contents(data))));
        self.seq_number = self.seq_number.wrapping_add(1);
    }

    /// Begins to read, after the packets that came in were processed: passes on all data that
    /// is in order, and acknowledges it. `closed` tells whether no more packets can come.
    /// Nothing is done where the system clock reads a time before the UNIX epoch.
    pub fn poll_read(&mut self, closed: bool) -> (r: Option<ReadAction>)
        requires
            !closed ==> assembly_fits(old(self)@),
        ensures
            match r {
                Some(action) => exists|now: u32|
                    read_begins(old(self)@, final(self)@, closed, now, action),
                None => !closed && final(self)@ == old(self)@,
            },
    {
        if closed {
            let action = self.poll_read_at(closed, 0);
            assert(read_begins(old(self)@, self@, closed, 0, action));
            return Some(action);
        }
        match current_micros() {
            Some(now) => {
                let action = self.poll_read_at(closed, now);
                assert(read_begins(old(self)@, self@, closed, now, action));
                Some(action)
            },
            None => None,
        }
    }

    /// Begins to read as [`Self::poll_read`] does, at the given time.
    pub fn poll_read_at(&mut self, closed: bool, now: u32) -> (action: ReadAction)
        requires
            !closed ==> assembly_fits(old(self)@),
        ensures
            read_begins(old(self)@, final(self)@, closed, now, action),
    {
        if closed {
            return ReadAction::Eof;
        }
        self.assemble();
        ReadAction::SendAck(self.send_ack(now))
    }

    /// Finishes reading, after the acknowledgement was sent or could not be: takes as much data
    /// as there is and as has room in `capacity` bytes.
    pub fn finish_read(&mut self, ack_sent: bool, capacity: usize) -> (outcome: ReadOutcome)
        ensures
            ({
                let all = old(self)@.received;
                let count: int = if all.len() > capacity {
                    capacity as int
                } else {
                    all.len() as int
                };
                if !ack_sent {
                    outcome is AckFailed && final(self)@ == old(self)@
                } else if all.len() == 0 {
                    outcome is Pending && final(self)@ == old(self)@
                } else {
                    &&& outcome matches ReadOutcome::Data(chunk) && contents_mut(chunk) == all.take(
                        count,
                    )
                    &&& final(self)@ == (StreamView { received: all.skip(count), ..old(self)@ })
                }
            }),
    {
        let ghost all = self@.received;
        if !ack_sent {
            return ReadOutcome::AckFailed;
        }
        let available = buffer::len_mut(&self.received_data);
        if available == 0 {
            // Without any data the acknowledgement was a duplicate.
            ReadOutcome::Pending
        } else if available > capacity {
            ReadOutcome::Data(buffer::split_to_mut(&mut self.received_data, capacity))
        } else {
            let chunk = buffer::split_mut(&mut self.received_data);
            proof {
                assert(all.take(all.len() as int) =~= all);
                assert(all.skip(all.len() as int) =~= Seq::empty());
            }
            ReadOutcome::Data(chunk)
        }
    }

    /// The next step in writing a buffer, `written` bytes of which are sent. Nothing is written
    /// once the connection is shut down. There is no step where the system clock reads a time
    /// before the UNIX epoch.
    pub fn poll_write(&self, buf: &[u8], written: usize) -> (r: Option<WriteAction>)
        requires
            written <= buf@.len(),
        ensures
            match r {
                Some(action) => exists|now: u32|
                    write_goes_on(self@, buf@, written, now, action),
                None => !self@.is_shutdown && written < buf@.len(),
            },
    {
        if self.is_shutdown || written == buf.len() {
            let action = self.poll_write_at(buf, written, 0);
            assert(write_goes_on(self@, buf@, written, 0, action));
            return Some(action);
        }
        match current_micros() {
            Some(now) => {
                let action = self.poll_write_at(buf, written, now);
                assert(write_goes_on(self@, buf@, written, now, action));
                Some(action)
            },
            None => None,
        }
    }

    /// The next step in writing a buffer as of [`Self::poll_write`], at the given time.
    pub fn poll_write_at(&self, buf: &[u8], written: usize, now: u32) -> (action: WriteAction)
        requires
            written <= buf@.len(),
        ensures
            write_goes_on(self@, buf@, written, now, action),
    {
        if self.is_shutdown {
            return WriteAction::Done(0);
        }
        if written == buf.len() {
            return WriteAction::Done(written);
        }
        let end: usize = if buf.len() - written > MAX_DATA_SEGMENT_SIZE {
            written + MAX_DATA_SEGMENT_SIZE
        } else {
            buf.len()
        };
        let data = buffer::copy_from_slice(vstd::slice::slice_subrange(buf, written, end));
        WriteAction::Send(self.send_data(data.clone(), now), data)
    }

    /// Whether all data that was written has been acknowledged, after the packets that came in
    /// were processed.
    pub fn poll_flush(&self) -> (outcome: FlushOutcome)
        requires
            self@.unacked.len() > 0 ==> !self@.is_shutdown,
        ensures
            outcome == if self@.unacked.len() == 0 {
                FlushOutcome::Flushed
            } else {
                FlushOutcome::Pending
            },
    {
        if self.unacked_data.len() == 0 {
            FlushOutcome::Flushed
        } else {
            FlushOutcome::Pending
        }
    }

    /// Shuts the connection down: nothing more can be written.
    pub fn shut_down(&mut self)
        ensures
            final(self)@ == (StreamView { is_shutdown: true, ..old(self)@ }),
    {
        self.is_shutdown = true;
    }

    /// Begins to connect to a peer. The connection is entered in the routing table of the socket,
    /// as [`UtpSocket::register_connection`] does, and there is none where all IDs are taken. The
    /// packet is to be sent to the peer, and [`Connecting::finish`] is to be told the answer.
    pub fn connect(
        socket: &mut UtpSocket,
        remote_addr: SocketAddr,
        mailbox: u64,
        draws: u64,
    ) -> (r: Option<(Connecting, Packet)>)
        ensures
            final(socket).address() == old(socket).address(),
            match r {
                Some((connecting, packet)) => {
                    let id = connecting.connection_id_recv;
                    &&& !old(socket).routes().contains_key(route_key(id, remote_addr))
                    &&& final(socket).routes() == old(socket).routes().insert(
                        route_key(id, remote_addr),
                        mailbox,
                    )
                    &&& connecting == Connecting {
                        local_addr: old(socket).address(),
                        remote_addr,
                        connection_id_recv: id,
                        seq_number: 2,
                    }
                    &&& packet@ == syn_packet(id)
                },
                None => {
                    &&& forall|id: u16| #[trigger]
                        old(socket).routes().contains_key(route_key(id, remote_addr))
                    &&& final(socket).routes() == old(socket).routes()
                },
            },
    {
        match socket.register_connection(remote_addr, mailbox, draws) {
            Some(connection_id_recv) => Some(
                Self::connect_with(socket.local_addr(), remote_addr, connection_id_recv),
            ),
            None => None,
        }
    }

    /// Begins to connect as [`Self::connect`] does, under an ID that is in the routing table.
    pub fn connect_with(
        local_addr: SocketAddr,
        remote_addr: SocketAddr,
        connection_id_recv: u16,
    ) -> (r: (Connecting, Packet))
        ensures
            r.0 == (Connecting { local_addr, remote_addr, connection_id_recv, seq_number: 2 }),
            r.1@ == syn_packet(connection_id_recv),
    {
        let seq_number: u16 = 1;
        // The peer does not read this.
        let ack_number: u16 = 0;
        let extensions: Vec<Extension> = Vec::new();
        assert(extension_views(extensions@) =~= Seq::empty());
        let syn = Packet::new(
            PacketType::Syn,
            1,
            connection_id_recv,
            0,
            0,
            0,
            seq_number,
            ack_number,
            extensions,
            buffer::empty(),
        );
        let seq_number = seq_number.wrapping_add(1);
        (Connecting { local_addr, remote_addr, connection_id_recv, seq_number }, syn)
    }
}

/// A connection that the peer has not answered yet.
pub struct Connecting {
    pub local_addr: SocketAddr,
    pub remote_addr: SocketAddr,
    pub connection_id_recv: u16,
    /// Sequence number of the next packet to send.
    pub seq_number: u16,
}

/// The packet that asks a peer for a connection.
pub open spec fn syn_packet(connection_id_recv: u16) -> PacketView {
    PacketView {
        packet_type: PacketType::Syn,
        version: 1,
        connection_id: connection_id_recv,
        timestamp_micros: 0,
        timestamp_delta_micros: 0,
        window_size: 0,
        seq_number: 1,
        ack_number: 0,
        extensions: Seq::empty(),
        data: Seq::empty(),
    }
}

/// A connection with empty buffers.
pub open spec fn fresh_stream(
    local_addr: SocketAddr,
    remote_addr: SocketAddr,
    connection_id_recv: u16,
    connection_id_send: u16,
    seq_number: u16,
    ack_number: u16,
) -> StreamView {
    StreamView {
        local_addr,
        remote_addr,
        connection_id_recv,
        connection_id_send,
        seq_number,
        ack_number,
        inbound: Map::empty(),
        received: Seq::empty(),
        unacked: Seq::empty(),
        congestion: nothing_observed(),
        is_shutdown: false,
    }
}

/// A connection with empty buffers.
pub(crate) fn new_stream(
    local_addr: SocketAddr,
    remote_addr: SocketAddr,
    connection_id_recv: u16,
    connection_id_send: u16,
    seq_number: u16,
    ack_number: u16,
) -> (r: UtpStream)
    ensures
        r@ == fresh_stream(
            local_addr,
            remote_addr,
            connection_id_recv,
            connection_id_send,
            seq_number,
            ack_number,
        ),
{
    let r = UtpStream::new(
        local_addr,
        connection_id_recv,
        connection_id_send,
        remote_addr,
        seq_number,
        ack_number,
        HashMap::new(),
        buffer::with_capacity(0),
        VecDeque::new(),
    );
    assert(r@.inbound =~= Map::empty());
    assert(r@.unacked =~= Seq::empty());
    r
}

impl Connecting {
    /// The connection, once the peer has answered with a State packet.
    pub fn finish(self, response: &Packet) -> (r: UtpStream)
        requires
            response.packet_type == PacketType::State,
        ensures
            r@ == fresh_stream(
                self.local_addr,
                self.remote_addr,
                self.connection_id_recv,
                seq_plus(self.connection_id_recv, 1),
                self.seq_number,
                response.seq_number,
            ),
    {
        new_stream(
            self.local_addr,
            self.remote_addr,
            self.connection_id_recv,
            self.connection_id_recv.wrapping_add(1),
            self.seq_number,
            response.seq_number,
        )
    }
}

/// What the packets of a queue are, and when they came in.
pub open spec fn arrivals(packets: Seq<(Packet, u32)>) -> Seq<Arrival> {
    Seq::new(packets.len(), |i: int| (packets[i].0@, packets[i].1))
}

/// What the packets of a queue are, with the times when they came in.
pub open spec fn arrivals_at(packets: Seq<Packet>, times: Seq<u32>) -> Seq<Arrival> {
    Seq::new(packets.len(), |i: int| (packets[i]@, times[i]))
}

/// The data of more sequence numbers is no shorter.
proof fn lemma_run_data_grows(inbound: Map<u16, Seq<u8>>, next: u16, few: nat, many: nat)
    requires
        few <= many,
    ensures
        run_data(inbound, next, few).len() <= run_data(inbound, next, many).len(),
    decreases many,
{
    if few < many {
        lemma_run_data_grows(inbound, next, few, (many - 1) as nat);
    }
}

/// A run is no longer than its limit.
proof fn lemma_run_length_limit(inbound: Map<u16, Seq<u8>>, next: u16, limit: nat)
    ensures
        run_length(inbound, next, limit) <= limit,
    decreases limit,
{
    if limit > 0 {
        lemma_run_length_limit(inbound, seq_plus(next, 1), (limit - 1) as nat);
    }
}

/// Every packet that a connection sends carries the ID under which the peer knows the connection,
/// and the number of the last data that was passed on, whatever the buffers hold. Data goes in a
/// packet of its own type, and an acknowledgement has none.
pub proof fn law_sent_packets(s: StreamView, data: Seq<u8>, now: u32)
    ensures
        ({
            let p = data_packet(s, data, now);
            let a = ack_packet(s, now);
            &&& p.packet_type == PacketType::Data && a.packet_type == PacketType::State
            &&& p.version == 1 && a.version == 1
            &&& p.connection_id == s.connection_id_send && a.connection_id == s.connection_id_send
            &&& p.timestamp_micros == now && a.timestamp_micros == now
            &&& p.timestamp_delta_micros == 0 && a.timestamp_delta_micros == 0
            &&& p.window_size == 0 && a.window_size == 0
            &&& p.seq_number == s.seq_number && a.seq_number == s.seq_number
            &&& p.ack_number == s.ack_number && a.ack_number == s.ack_number
            &&& p.extensions.len() == 0 && a.extensions.len() == 0
            &&& p.data == data && a.data.len() == 0
        }),
{
}

/// Any packet that a connection sends is stamped alike, whatever it is for.
pub proof fn law_packet_to_send(
    s: StreamView,
    packet_type: PacketType,
    extensions: Seq<ExtensionView>,
    data: Seq<u8>,
    now: u32,
)
    ensures
        ({
            let p = packet_to_send(s, packet_type, extensions, data, now);
            &&& p.packet_type == packet_type
            &&& p.version == 1
            &&& p.connection_id == s.connection_id_send
            &&& p.timestamp_micros == now
            &&& p.timestamp_delta_micros == 0
            &&& p.window_size == 0
            &&& p.seq_number == s.seq_number
            &&& p.ack_number == s.ack_number
            &&& p.extensions == extensions
            &&& p.data == data
        }),
{
}

/// The packet that asks for a connection is a SYN packet with the first sequence number. It names
/// the ID under which the answer is waited for, and consists of a header alone.
pub proof fn law_syn_packet(connection_id_recv: u16)
    ensures
        ({
            let p = syn_packet(connection_id_recv);
            &&& p.packet_type == PacketType::Syn
            &&& p.version == 1
            &&& p.connection_id == connection_id_recv
            &&& p.timestamp_micros == 0
            &&& p.timestamp_delta_micros == 0
            &&& p.window_size == 0
            &&& p.seq_number == 1
            &&& p.ack_number == 0
            &&& p.extensions.len() == 0
            &&& p.data.len() == 0
        }),
{
}

/// A connection with empty buffers has the numbers and addresses that it is given, can be written
/// to, and has seen no packet.
pub proof fn law_fresh_stream(
    local_addr: SocketAddr,
    remote_addr: SocketAddr,
    connection_id_recv: u16,
    connection_id_send: u16,
    seq_number: u16,
    ack_number: u16,
)
    ensures
        ({
            let s = fresh_stream(
                local_addr,
                remote_addr,
                connection_id_recv,
                connection_id_send,
                seq_number,
                ack_number,
            );
            &&& s.local_addr == local_addr
            &&& s.remote_addr == remote_addr
            &&& s.connection_id_recv == connection_id_recv
            &&& s.connection_id_send == connection_id_send
            &&& s.seq_number == seq_number
            &&& s.ack_number == ack_number
            &&& forall|q: u16| !#[trigger] s.inbound.contains_key(q)
            &&& s.received.len() == 0
            &&& s.unacked.len() == 0
            &&& s.congestion == nothing_observed()
            &&& !s.is_shutdown
        }),
{
}

/// The view of a connection has its fields, and what its buffers hold.
pub proof fn law_stream_view(u: UtpStream)
    ensures
        u@.local_addr == u.local_addr,
        u@.remote_addr == u.remote_addr,
        u@.connection_id_recv == u.connection_id_recv,
        u@.connection_id_send == u.connection_id_send,
        u@.seq_number == u.seq_number,
        u@.ack_number == u.ack_number,
        u@.received == contents_mut(u.received_data),
        u@.congestion == u.congestion_controller@,
        u@.is_shutdown == u.is_shutdown,
        forall|q: u16| #[trigger]
            u@.inbound.contains_key(q) <==> u.inbound_data@.contains_key(q),
        forall|q: u16| #[trigger]
            u@.inbound.contains_key(q) ==> u@.inbound[q] == contents(u.inbound_data@[q]),
        u@.unacked.len() == u.unacked_data@.len(),
        forall|i: int|
            0 <= i < u.unacked_data@.len() ==> (#[trigger] u@.unacked[i]) == (
                u.unacked_data@[i].0,
                contents(u.unacked_data@[i].1),
            ),
{
}

/// The packets of a queue come in in the order of the queue, each at its time.
pub proof fn law_arrivals(packets: Seq<(Packet, u32)>, unstamped: Seq<Packet>, times: Seq<u32>)
    ensures
        arrivals(packets).len() == packets.len(),
        forall|i: int|
            0 <= i < packets.len() ==> (#[trigger] arrivals(packets)[i]) == (
                packets[i].0@,
                packets[i].1,
            ),
        arrivals_at(unstamped, times).len() == unstamped.len(),
        forall|i: int|
            0 <= i < unstamped.len() ==> (#[trigger] arrivals_at(unstamped, times)[i]) == (
                unstamped[i]@,
                times[i],
            ),
{
}

/// A connection knows what to do with data and acknowledgements, and with nothing else.
pub proof fn law_known_types(t: PacketType)
    ensures
        is_data_or_state(t) <==> t == PacketType::Data || t == PacketType::State,
{
}

/// Data is suspicious where it is more than 128 steps before or after the last that was passed
/// on. Steps are counted on the shorter way.
pub proof fn law_suspicious_data(s: StreamView, p: PacketView, steps: int)
    requires
        p.packet_type == PacketType::Data,
        -0x8000 <= steps < 0x8000,
        (s.ack_number + steps) % 0x1_0000 == p.seq_number,
    ensures
        suspicious(s, p) <==> steps < -128 || steps > 128,
{
}

/// An acknowledgement is suspicious where it names the next packet, which is not sent yet, or one
/// that is more than three steps before those in flight.
pub proof fn law_suspicious_ack(s: StreamView, p: PacketView, steps: int)
    requires
        p.packet_type == PacketType::State,
        0 <= steps < 0x1_0000,
        (p.ack_number + steps) % 0x1_0000 == s.seq_number,
    ensures
        suspicious(s, p) <==> steps == 0 || steps > s.unacked.len() + 3,
{
}

/// A packet that comes in never changes what the connection sends next, where, and under which
/// ID. Only data that is not suspicious changes what is held, and only an acknowledgement that is
/// not suspicious changes what is in flight. Nothing is passed on. A suspicious packet changes
/// nothing at all.
pub proof fn law_taken(s: StreamView, arrival: Arrival)
    ensures
        ({
            let t = taken(s, arrival);
            let p = arrival.0;
            &&& t.seq_number == s.seq_number
            &&& t.ack_number == s.ack_number
            &&& t.received == s.received
            &&& t.is_shutdown == s.is_shutdown
            &&& t.local_addr == s.local_addr
            &&& t.remote_addr == s.remote_addr
            &&& t.connection_id_recv == s.connection_id_recv
            &&& t.connection_id_send == s.connection_id_send
            &&& suspicious(s, p) ==> t == s
            &&& !suspicious(s, p) ==> t.congestion == s.congestion.observe(arrival.1, p)
            &&& p.packet_type == PacketType::Data ==> t.unacked == s.unacked
            &&& p.packet_type == PacketType::State ==> t.inbound == s.inbound
            &&& p.packet_type == PacketType::Data && !suspicious(s, p) ==> t.inbound
                == s.inbound.insert(p.seq_number, p.data)
        }),
{
}

/// A packet that is handled changes what is held, where it carries data, and what is in flight,
/// where it acknowledges. Data is held under its number, in place of what was held there.
pub proof fn law_handled(s: StreamView, p: PacketView)
    requires
        is_data_or_state(p.packet_type),
    ensures
        ({
            let t = handled(s, p);
            &&& t.seq_number == s.seq_number
            &&& t.ack_number == s.ack_number
            &&& t.received == s.received
            &&& t.is_shutdown == s.is_shutdown
            &&& t.local_addr == s.local_addr
            &&& t.remote_addr == s.remote_addr
            &&& t.connection_id_recv == s.connection_id_recv
            &&& t.connection_id_send == s.connection_id_send
            &&& t.congestion == s.congestion
            &&& p.packet_type == PacketType::Data ==> t.unacked == s.unacked && t.inbound
                == s.inbound.insert(p.seq_number, p.data)
            &&& p.packet_type == PacketType::State ==> t.inbound == s.inbound
        }),
{
}

/// An acknowledgement takes packets out of those in flight from the oldest on, up to the first
/// that it does not cover. One that is not suspicious covers what was sent as early as the packet
/// that it names, or earlier. Any other covers the numbers up to its own.
pub proof fn law_handled_ack(s: StreamView, p: PacketView)
    requires
        p.packet_type == PacketType::State,
    ensures
        ({
            let left = handled(s, p).unacked;
            let gone = s.unacked.len() - left.len();
            &&& 0 <= gone
            &&& left == s.unacked.skip(gone)
            &&& !suspicious(s, p) ==> {
                &&& forall|i: int|
                    0 <= i < gone ==> (s.seq_number - (#[trigger] s.unacked[i]).0) % 0x1_0000 >= (
                    s.seq_number - p.ack_number) % 0x1_0000
                &&& gone < s.unacked.len() ==> (s.seq_number - s.unacked[gone].0) % 0x1_0000 < (
                s.seq_number - p.ack_number) % 0x1_0000
            }
            &&& suspicious(s, p) ==> {
                &&& forall|i: int|
                    0 <= i < gone ==> (#[trigger] s.unacked[i]).0 <= p.ack_number
                &&& gone < s.unacked.len() ==> s.unacked[gone].0 > p.ack_number
            }
        }),
{
    let timely = timely(s.unacked.len(), p.ack_number, s.seq_number);
    lemma_covered_front(s.unacked, p.ack_number, s.seq_number, timely);
}

/// The packets that an acknowledgement covers are those before the first that it does not.
proof fn lemma_covered_front(
    unacked: Seq<(u16, Seq<u8>)>,
    ack_number: u16,
    seq_number: u16,
    timely: bool,
)
    ensures
        ({
            let count = acked_count(unacked, ack_number, seq_number, timely) as int;
            &&& count <= unacked.len()
            &&& forall|i: int|
                0 <= i < count ==> covered(
                    (#[trigger] unacked[i]).0,
                    ack_number,
                    seq_number,
                    timely,
                )
            &&& count < unacked.len() ==> !covered(
                unacked[count].0,
                ack_number,
                seq_number,
                timely,
            )
        }),
    decreases unacked.len(),
{
    let count = acked_count(unacked, ack_number, seq_number, timely) as int;
    if count > 0 {
        let rest = unacked.skip(1);
        lemma_covered_front(rest, ack_number, seq_number, timely);
        assert forall|i: int| 0 <= i < count implies covered(
            (#[trigger] unacked[i]).0,
            ack_number,
            seq_number,
            timely,
        ) by {
            if i > 0 {
                assert(unacked[i] == rest[i - 1]);
            }
        }
        if count < unacked.len() {
            assert(unacked[count] == rest[count - 1]);
        }
    }
}

/// Packets come in one after the other: some and then some more are as good as all at once.
pub proof fn law_taken_in_turn(s: StreamView, first: Seq<Arrival>, second: Seq<Arrival>)
    ensures
        taken_all(s, Seq::empty()) == s,
        forall|a: Arrival| taken_all(s, seq![a]) == #[trigger] taken(s, a),
        taken_all(s, first + second) == taken_all(taken_all(s, first), second),
    decreases second.len(),
{
    assert forall|a: Arrival| taken_all(s, seq![a]) == #[trigger] taken(s, a) by {
        assert(seq![a].drop_last() =~= Seq::<Arrival>::empty());
        assert(taken_all(s, seq![a].drop_last()) == s);
    }
    if second.len() == 0 {
        assert(first + second =~= first);
    } else {
        law_taken_in_turn(s, first, second.drop_last());
        assert((first + second).drop_last() =~= first + second.drop_last());
    }
}

/// A connection that no more packets can come to is shut down, and otherwise is what it was.
/// All packets that came in before are taken.
pub proof fn law_processed(s: StreamView, arrivals: Seq<Arrival>, closed: bool)
    ensures
        ({
            let t = taken_all(s, arrivals);
            let r = processed(s, arrivals, closed);
            &&& r.is_shutdown <==> s.is_shutdown || closed
            &&& r.seq_number == t.seq_number && r.seq_number == s.seq_number
            &&& r.ack_number == t.ack_number && r.ack_number == s.ack_number
            &&& r.received == t.received && r.received == s.received
            &&& r.inbound == t.inbound
            &&& r.unacked == t.unacked
            &&& r.congestion == t.congestion
            &&& r.local_addr == s.local_addr
            &&& r.remote_addr == s.remote_addr
            &&& r.connection_id_recv == s.connection_id_recv
            &&& r.connection_id_send == s.connection_id_send
        }),
{
    lemma_taken_all_keeps(s, arrivals);
}

/// Packets that come in never change what the connection sends next.
proof fn lemma_taken_all_keeps(s: StreamView, arrivals: Seq<Arrival>)
    ensures
        ({
            let t = taken_all(s, arrivals);
            &&& t.seq_number == s.seq_number
            &&& t.ack_number == s.ack_number
            &&& t.received == s.received
            &&& t.is_shutdown == s.is_shutdown
            &&& t.local_addr == s.local_addr
            &&& t.remote_addr == s.remote_addr
            &&& t.connection_id_recv == s.connection_id_recv
            &&& t.connection_id_send == s.connection_id_send
        }),
    decreases arrivals.len(),
{
    if arrivals.len() > 0 {
        lemma_taken_all_keeps(s, arrivals.drop_last());
        law_taken(taken_all(s, arrivals.drop_last()), arrivals.last());
    }
}

/// Data that is sent is in flight, after all that was before, under the number of its packet. The
/// next packet has the next number. Nothing else changes.
pub proof fn law_data_sent(s: StreamView, data: Seq<u8>)
    ensures
        ({
            let t = data_sent(s, data);
            &&& t.unacked.len() == s.unacked.len() + 1
            &&& t.unacked.take(s.unacked.len() as int) == s.unacked
            &&& t.unacked.last() == (s.seq_number, data)
            &&& s.seq_number < 0xffff ==> t.seq_number == s.seq_number + 1
            &&& s.seq_number == 0xffff ==> t.seq_number == 0
            &&& t.ack_number == s.ack_number
            &&& t.inbound == s.inbound
            &&& t.received == s.received
            &&& t.congestion == s.congestion
            &&& t.is_shutdown == s.is_shutdown
            &&& t.local_addr == s.local_addr
            &&& t.remote_addr == s.remote_addr
            &&& t.connection_id_recv == s.connection_id_recv
            &&& t.connection_id_send == s.connection_id_send
        }),
{
    assert(data_sent(s, data).unacked.take(s.unacked.len() as int) =~= s.unacked);
}

/// A packet takes 1452 bytes of a buffer, or all that is left where that is less, from where the
/// packet before it ended.
pub proof fn law_segment(buf: Seq<u8>, written: int)
    requires
        0 <= written <= buf.len(),
    ensures
        segment(buf, written).len() == if buf.len() - written < 1452 {
            buf.len() - written
        } else {
            1452
        },
        forall|i: int|
            0 <= i < segment(buf, written).len() ==> (#[trigger] segment(buf, written)[i])
                == buf[written + i],
        MAX_DATA_SEGMENT_SIZE == 1452,
{
}

/// To read is to pass on data and to send an acknowledgement that names the last packet passed
/// on. It goes to the peer under its ID, without data. Where no more packets can come, nothing
/// changes, and the end is told.
pub proof fn law_read_begins(
    before: StreamView,
    after: StreamView,
    closed: bool,
    now: u32,
    action: ReadAction,
)
    requires
        read_begins(before, after, closed, now, action),
    ensures
        match action {
            ReadAction::Eof => closed && after == before,
            ReadAction::SendAck(packet) => {
                &&& !closed
                &&& after == assembled(before)
                &&& packet@.packet_type == PacketType::State
                &&& packet@.connection_id == before.connection_id_send
                &&& packet@.seq_number == before.seq_number
                &&& packet@.ack_number == after.ack_number
                &&& packet@.timestamp_micros == now
                &&& packet@.data.len() == 0
            },
        },
{
}

/// A write is over where all bytes are sent, and is never begun where the connection is shut
/// down. Otherwise a packet with the next bytes is sent, under the next number and the ID of the
/// peer.
pub proof fn law_write_goes_on(
    s: StreamView,
    buf: Seq<u8>,
    written: usize,
    now: u32,
    action: WriteAction,
)
    requires
        written <= buf.len(),
        write_goes_on(s, buf, written, now, action),
    ensures
        match action {
            WriteAction::Done(n) => if s.is_shutdown {
                n == 0
            } else {
                n == written && written == buf.len()
            },
            WriteAction::Send(packet, data) => {
                &&& !s.is_shutdown
                &&& contents(data).len() > 0
                &&& contents(data) == buf.subrange(written as int, written + contents(data).len())
                &&& contents(data).len() == 1452 || written + contents(data).len() == buf.len()
                &&& packet@.packet_type == PacketType::Data
                &&& packet@.connection_id == s.connection_id_send
                &&& packet@.seq_number == s.seq_number
                &&& packet@.ack_number == s.ack_number
                &&& packet@.timestamp_micros == now
                &&& packet@.data == contents(data)
            },
        },
{
}

/// Data can be passed on where it fits in a quarter of the largest allocation with what was
/// passed on before.
pub proof fn law_assembly_fits(s: StreamView)
    ensures
        assembly_fits(s) <==> assembled(s).received.len() <= isize::MAX / 4,
{
}

} // verus!
