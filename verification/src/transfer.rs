//! What two connections that talk to each other achieve together.
//!
//! A buffer is cut into parts, and each part travels in a packet. Packets may get lost, come
//! in several times, and in any order; what is read on the other side is the buffer all the
//! same, or a part of it from its start.

use crate::addr::SocketAddr;
use crate::buffer::contents;
use crate::listener::{accepted_stream, syn_ack_packet};
use crate::packet::{Packet, PacketType};
use crate::sequence::{lemma_distance_after_steps, lemma_steps_add, seq_distance, seq_plus};
use crate::socket::packet_receiver::{dispatched, received, ReceiverAction};
use crate::socket::{route_key, MAX_DATAGRAM_SIZE};
use crate::stream::{
    ack_packet, acked_count, assembled, data_packet, data_sent, fresh_stream, in_order,
    is_data_or_state, law_taken, run_data, run_length, segment, suspicious, syn_packet, taken,
    taken_all, write_goes_on, Arrival, StreamView, WriteAction, ACCEPTABLE_DATA_DISTANCE,
    MAX_DATA_SEGMENT_SIZE,
};
use crate::table::RouteKey;
use crate::wire::{
    encode, law_decode_encode, lemma_encode_header_len, representable, PacketView,
    PACKET_HEADER_LEN,
};
use vstd::prelude::*;

verus! {

/// The parts of a buffer from `written` on, each of which goes in one packet.
pub open spec fn segments(buf: Seq<u8>, written: int) -> Seq<Seq<u8>>
    decreases buf.len() - written,
{
    if written < 0 || written >= buf.len() {
        Seq::empty()
    } else {
        seq![segment(buf, written)] + segments(buf, written + segment(buf, written).len())
    }
}

/// Some parts, one after the other.
pub open spec fn joined(parts: Seq<Seq<u8>>) -> Seq<u8>
    decreases parts.len(),
{
    if parts.len() == 0 {
        Seq::empty()
    } else {
        parts[0] + joined(parts.skip(1))
    }
}

/// The connection after it wrote a buffer from `written` on, and the packets that it sent. The
/// k-th of them is stamped with the k-th of the times.
pub open spec fn written_out(s: StreamView, buf: Seq<u8>, written: int, times: Seq<u32>) -> (
    StreamView,
    Seq<PacketView>,
)
    decreases buf.len() - written,
{
    if s.is_shutdown || written < 0 || written >= buf.len() {
        (s, Seq::empty())
    } else {
        let part = segment(buf, written);
        let (after, packets) = written_out(
            data_sent(s, part),
            buf,
            written + part.len(),
            times.skip(1),
        );
        (after, seq![data_packet(s, part, times[0])] + packets)
    }
}

/// What is joined is no different where it was cut.
proof fn lemma_joined_add(front: Seq<Seq<u8>>, back: Seq<Seq<u8>>)
    ensures
        joined(front + back) == joined(front) + joined(back),
    decreases front.len(),
{
    if front.len() == 0 {
        assert(front + back =~= back);
        assert(joined(front) + joined(back) =~= joined(back));
    } else {
        lemma_joined_add(front.skip(1), back);
        assert((front + back).skip(1) =~= front.skip(1) + back);
        assert(front[0] + (joined(front.skip(1)) + joined(back)) =~= front[0] + joined(
            front.skip(1),
        ) + joined(back));
    }
}

/// The parts of a buffer are the buffer again when joined. None of them is empty, and each fits
/// in a packet.
pub proof fn law_segments(buf: Seq<u8>, written: int)
    requires
        0 <= written <= buf.len(),
    ensures
        joined(segments(buf, written)) == buf.skip(written),
        forall|k: int|
            0 <= k < segments(buf, written).len() ==> 0 < (#[trigger] segments(
                buf,
                written,
            )[k]).len() <= MAX_DATA_SEGMENT_SIZE,
    decreases buf.len() - written,
{
    let parts = segments(buf, written);
    if written >= buf.len() {
        assert(buf.skip(written) =~= Seq::empty());
    } else {
        let part = segment(buf, written);
        let next = written + part.len();
        law_segments(buf, next);
        assert(parts.skip(1) =~= segments(buf, next));
        assert(part + buf.skip(next) =~= buf.skip(written));
        assert forall|k: int| 0 <= k < parts.len() implies 0 < (#[trigger] parts[k]).len()
            <= MAX_DATA_SEGMENT_SIZE by {
            if k > 0 {
                assert(parts[k] == segments(buf, next)[k - 1]);
            }
        }
    }
}

/// Writing a buffer sends its parts, one packet each, with sequence numbers in a row. All of
/// them are in flight afterwards.
pub proof fn law_written_out(s: StreamView, buf: Seq<u8>, written: int, times: Seq<u32>)
    requires
        !s.is_shutdown,
        0 <= written <= buf.len(),
        segments(buf, written).len() <= times.len(),
    ensures
        ({
            let parts = segments(buf, written);
            let (after, packets) = written_out(s, buf, written, times);
            &&& packets.len() == parts.len()
            &&& forall|k: int|
                0 <= k < parts.len() ==> #[trigger] packets[k] == data_packet(
                    StreamView { seq_number: seq_plus(s.seq_number, k), ..s },
                    parts[k],
                    times[k],
                )
            &&& after == StreamView {
                seq_number: seq_plus(s.seq_number, parts.len() as int),
                unacked: s.unacked + Seq::new(
                    parts.len(),
                    |k: int| (seq_plus(s.seq_number, k), parts[k]),
                ),
                ..s
            }
        }),
    decreases buf.len() - written,
{
    let parts = segments(buf, written);
    let (after, packets) = written_out(s, buf, written, times);
    assert(seq_plus(s.seq_number, 0) == s.seq_number);
    if written >= buf.len() {
        assert(s.unacked + Seq::new(
            parts.len(),
            |k: int| (seq_plus(s.seq_number, k), parts[k]),
        ) =~= s.unacked);
    } else {
        let part = segment(buf, written);
        let next = written + part.len();
        let s1 = data_sent(s, part);
        law_written_out(s1, buf, next, times.skip(1));
        let parts1 = segments(buf, next);
        let (after1, packets1) = written_out(s1, buf, next, times.skip(1));
        assert forall|k: int| 0 <= k < parts1.len() implies #[trigger] seq_plus(s1.seq_number, k)
            == seq_plus(s.seq_number, k + 1) by {
            lemma_steps_add(s.seq_number, 1, k);
        }
        assert forall|k: int| 0 <= k < parts.len() implies #[trigger] packets[k] == data_packet(
            StreamView { seq_number: seq_plus(s.seq_number, k), ..s },
            parts[k],
            times[k],
        ) by {
            if k > 0 {
                assert(packets[k] == packets1[k - 1]);
                assert(parts[k] == parts1[k - 1]);
                assert(seq_plus(s1.seq_number, k - 1) == seq_plus(s.seq_number, k));
                assert(times.skip(1)[k - 1] == times[k]);
            }
        }
        lemma_steps_add(s.seq_number, 1, parts1.len() as int);
        assert(after.unacked =~= s.unacked + Seq::new(
            parts.len(),
            |k: int| (seq_plus(s.seq_number, k), parts[k]),
        ));
    }
}

/// A step in writing a buffer is the first of those that write it out: it sends the first of the
/// packets, and the rest is written after its data was sent. Where nothing is left to write, the
/// step ends the write.
pub proof fn law_write_step(
    s: StreamView,
    buf: Seq<u8>,
    written: usize,
    times: Seq<u32>,
    action: WriteAction,
)
    requires
        written <= buf.len(),
        write_goes_on(s, buf, written, times[0], action),
    ensures
        match action {
            WriteAction::Done(_) => written_out(s, buf, written as int, times) == (
                s,
                Seq::<PacketView>::empty(),
            ),
            WriteAction::Send(packet, data) => ({
                let part = contents(data);
                let (after, packets) = written_out(
                    data_sent(s, part),
                    buf,
                    written + part.len(),
                    times.skip(1),
                );
                &&& written + part.len() <= buf.len()
                &&& written_out(s, buf, written as int, times) == (after, seq![packet@] + packets)
            }),
        },
{
}

/// Every packet with a part of a buffer fits in a datagram, and can be told from its bytes.
pub proof fn law_data_packet_fits(s: StreamView, buf: Seq<u8>, written: int, now: u32)
    requires
        0 <= written < buf.len(),
    ensures
        ({
            let p = data_packet(s, segment(buf, written), now);
            &&& representable(p)
            &&& encode(p).len() == PACKET_HEADER_LEN + segment(buf, written).len()
            &&& encode(p).len() <= MAX_DATAGRAM_SIZE
        }),
{
    lemma_encode_header_len(data_packet(s, segment(buf, written), now));
}

/// Whether a connection has passed on the first `passed` of the parts that its peer sends, and
/// holds nothing but parts, each under its sequence number. The last sequence number before the
/// first part is `base`.
pub open spec fn follows(r: StreamView, base: u16, parts: Seq<Seq<u8>>, passed: int) -> bool {
    &&& 0 <= passed <= parts.len() <= 0xffff
    &&& r.ack_number == seq_plus(base, passed)
    &&& forall|q: u16| #[trigger]
        r.inbound.contains_key(q) ==> 1 <= seq_distance(base, q) <= parts.len() && r.inbound[q]
            == parts[seq_distance(base, q) - 1]
}

/// Whether a packet carries the part with the given index.
pub open spec fn carries(p: PacketView, base: u16, parts: Seq<Seq<u8>>, index: int) -> bool {
    &&& 0 <= index < parts.len()
    &&& p.packet_type == PacketType::Data
    &&& p.seq_number == seq_plus(base, index + 1)
    &&& p.data == parts[index]
}

/// A run of sequence numbers goes on until the first that there is no data for.
proof fn lemma_run(inbound: Map<u16, Seq<u8>>, next: u16, limit: nat)
    ensures
        ({
            let n = run_length(inbound, next, limit);
            &&& n <= limit
            &&& forall|i: int|
                0 <= i < n ==> inbound.contains_key(#[trigger] seq_plus(next, i))
            &&& n < limit ==> !inbound.contains_key(seq_plus(next, n as int))
        }),
    decreases limit,
{
    let n = run_length(inbound, next, limit);
    assert(seq_plus(next, 0) == next);
    if limit > 0 && inbound.contains_key(next) {
        let after = seq_plus(next, 1);
        lemma_run(inbound, after, (limit - 1) as nat);
        lemma_steps_add(next, 1, n - 1);
        assert forall|i: int| 0 <= i < n implies inbound.contains_key(
            #[trigger] seq_plus(next, i),
        ) by {
            if i > 0 {
                lemma_steps_add(next, 1, i - 1);
                assert(inbound.contains_key(seq_plus(after, i - 1)));
            }
        }
    }
}

/// Whatever part comes in, and how often: a connection that follows its peer still does. A part
/// that is no more than 128 away from the last one passed on is held until its turn.
#[verifier::rlimit(30)]
pub proof fn law_taken_follows(
    r: StreamView,
    base: u16,
    parts: Seq<Seq<u8>>,
    passed: int,
    arrival: Arrival,
    index: int,
)
    requires
        follows(r, base, parts, passed),
        carries(arrival.0, base, parts, index),
    ensures
        follows(taken(r, arrival), base, parts, passed),
        taken(r, arrival).received == r.received,
        -ACCEPTABLE_DATA_DISTANCE <= index + 1 - passed <= ACCEPTABLE_DATA_DISTANCE ==> taken(
            r,
            arrival,
        ).inbound == r.inbound.insert(seq_plus(base, index + 1), parts[index]),
{
    let p = arrival.0;
    lemma_held_follows(r, base, parts, passed, index);
    if -128 <= index + 1 - passed <= 128 {
        lemma_distance_between(base, passed, index + 1);
        lemma_distance_between(base, index + 1, passed);
        assert(!suspicious(r, p));
    }
    assert(!suspicious(r, p) ==> taken(r, arrival).inbound == r.inbound.insert(
        seq_plus(base, index + 1),
        parts[index],
    ));
}

/// A connection that holds one more part still follows.
proof fn lemma_held_follows(
    r: StreamView,
    base: u16,
    parts: Seq<Seq<u8>>,
    passed: int,
    index: int,
)
    requires
        follows(r, base, parts, passed),
        0 <= index < parts.len(),
    ensures
        follows(
            StreamView {
                inbound: r.inbound.insert(seq_plus(base, index + 1), parts[index]),
                ..r
            },
            base,
            parts,
            passed,
        ),
{
    let key = seq_plus(base, index + 1);
    let held = r.inbound.insert(key, parts[index]);
    lemma_distance_after_steps(base, index + 1);
    assert forall|q: u16| #[trigger] held.contains_key(q) implies 1 <= seq_distance(base, q)
        <= parts.len() && held[q] == parts[seq_distance(base, q) - 1] by {
        if q != key {
            assert(r.inbound.contains_key(q));
        }
    }
}

/// The distance between two sequence numbers that are some steps after the same one.
proof fn lemma_distance_between(base: u16, from: int, to: int)
    ensures
        seq_distance(seq_plus(base, from), seq_plus(base, to)) == (to - from) % 0x1_0000,
{
}

/// What is passed on are the next parts, in order, as far as they came in. No part is passed on
/// twice, and none is left out.
#[verifier::rlimit(30)]
pub proof fn law_assembled_follows(r: StreamView, base: u16, parts: Seq<Seq<u8>>, passed: int)
    requires
        follows(r, base, parts, passed),
    ensures
        ({
            let now = passed + in_order(r);
            &&& follows(assembled(r), base, parts, now)
            &&& assembled(r).received == r.received + joined(parts.subrange(passed, now))
            &&& now < parts.len() ==> !r.inbound.contains_key(seq_plus(base, now + 1))
            &&& forall|i: int|
                passed <= i < now ==> r.inbound.contains_key(#[trigger] seq_plus(base, i + 1))
        }),
{
    let next = seq_plus(r.ack_number, 1);
    let n = in_order(r) as int;
    let now = passed + n;
    let after = assembled(r);
    lemma_run(r.inbound, next, 0x1_0000);
    assert forall|i: int| #[trigger] seq_plus(next, i) == seq_plus(base, passed + 1 + i) by {
        lemma_steps_add(base, passed, 1);
        lemma_steps_add(base, passed + 1, i);
    }
    // The run ends at the last part.
    if now > parts.len() {
        let i = parts.len() - passed;
        assert(r.inbound.contains_key(seq_plus(next, i)));
        lemma_distance_after_steps(base, parts.len() as int + 1);
    }
    lemma_steps_add(base, passed, n);
    assert forall|i: int| passed <= i < now implies r.inbound.contains_key(
        #[trigger] seq_plus(base, i + 1),
    ) by {
        assert(r.inbound.contains_key(seq_plus(next, i - passed)));
    }
    assert forall|q: u16| #[trigger] after.inbound.contains_key(q) implies 1 <= seq_distance(
        base,
        q,
    ) <= parts.len() && after.inbound[q] == parts[seq_distance(base, q) - 1] by {
        assert(r.inbound.contains_key(q));
    }
    lemma_run_is_joined(r, base, parts, passed, n);
}

/// The data of the next `n` parts, where they came in.
proof fn lemma_run_is_joined(
    r: StreamView,
    base: u16,
    parts: Seq<Seq<u8>>,
    passed: int,
    n: int,
)
    requires
        follows(r, base, parts, passed),
        0 <= n <= parts.len() - passed,
        forall|i: int|
            passed <= i < passed + n ==> r.inbound.contains_key(#[trigger] seq_plus(base, i + 1)),
    ensures
        run_data(r.inbound, seq_plus(r.ack_number, 1), n as nat) == joined(
            parts.subrange(passed, passed + n),
        ),
    decreases n,
{
    let next = seq_plus(r.ack_number, 1);
    if n == 0 {
        assert(parts.subrange(passed, passed + n) =~= Seq::empty());
    } else {
        lemma_run_is_joined(r, base, parts, passed, n - 1);
        let last = passed + n - 1;
        lemma_steps_add(base, passed, 1);
        lemma_steps_add(base, passed + 1, n - 1);
        assert(seq_plus(next, n - 1) == seq_plus(base, last + 1));
        assert(r.inbound.contains_key(seq_plus(base, last + 1)));
        lemma_distance_after_steps(base, last + 1);
        assert(r.inbound[seq_plus(base, last + 1)] == parts[last]);
        let one = seq![parts[last]];
        assert(parts.subrange(passed, passed + n) =~= parts.subrange(passed, last) + one);
        lemma_joined_add(parts.subrange(passed, last), one);
        assert(joined(one.skip(1)) =~= Seq::empty());
        assert(joined(one) =~= parts[last]);
    }
}

/// Whether what one connection sends next is what the other waits for.
pub open spec fn in_step(s: StreamView, r: StreamView) -> bool {
    &&& s.connection_id_send == r.connection_id_recv
    &&& s.remote_addr == r.local_addr
    &&& s.local_addr == r.remote_addr
    &&& s.seq_number == seq_plus(r.ack_number, 1)
}

/// A peer that asks for a connection and the peer that accepts it are in step in both
/// directions once the answer came in, and each of them holds and waits for nothing. The answer
/// goes to the mailbox of the peer that asked.
pub proof fn law_handshake(
    client: SocketAddr,
    server: SocketAddr,
    connection_id: u16,
    seq_number: u16,
)
    ensures
        ({
            let syn = syn_packet(connection_id);
            let answer = syn_ack_packet(syn, seq_number);
            let c = fresh_stream(
                client,
                server,
                connection_id,
                seq_plus(connection_id, 1),
                2,
                answer.seq_number,
            );
            let s = accepted_stream(server, client, syn, seq_number);
            &&& in_step(c, s)
            &&& in_step(s, c)
            &&& c.connection_id_recv == s.connection_id_send
            &&& answer.connection_id == c.connection_id_recv
            &&& syn.packet_type == PacketType::Syn
            &&& answer.packet_type == PacketType::State
            &&& answer.ack_number == syn.seq_number
            &&& s.ack_number == syn.seq_number
            &&& c.ack_number == answer.seq_number
        }),
{
}

/// The packets that set up a connection and those that acknowledge can be told from their bytes,
/// and consist of a header alone.
pub proof fn law_control_packets_fit(
    connection_id: u16,
    syn: PacketView,
    seq_number: u16,
    s: StreamView,
    now: u32,
)
    ensures
        representable(syn_packet(connection_id)),
        representable(syn_ack_packet(syn, seq_number)),
        representable(ack_packet(s, now)),
        encode(syn_packet(connection_id)).len() == PACKET_HEADER_LEN,
        encode(syn_ack_packet(syn, seq_number)).len() == PACKET_HEADER_LEN,
        encode(ack_packet(s, now)).len() == PACKET_HEADER_LEN,
{
    lemma_encode_header_len(syn_packet(connection_id));
    lemma_encode_header_len(syn_ack_packet(syn, seq_number));
    lemma_encode_header_len(ack_packet(s, now));
}

/// Whether a packet is among those that came in.
pub open spec fn came_in(arrivals: Seq<Arrival>, p: PacketView) -> bool {
    exists|j: int| 0 <= j < arrivals.len() && (#[trigger] arrivals[j]).0 == p
}

/// After parts came in that are not far ahead, exactly those are held.
#[verifier::rlimit(30)]
proof fn lemma_taken_all_follows(
    r: StreamView,
    base: u16,
    parts: Seq<Seq<u8>>,
    passed: int,
    arrivals: Seq<Arrival>,
    indices: Seq<int>,
)
    requires
        follows(r, base, parts, passed),
        indices.len() == arrivals.len(),
        forall|j: int|
            0 <= j < arrivals.len() ==> carries(
                (#[trigger] arrivals[j]).0,
                base,
                parts,
                indices[j],
            ),
    ensures
        follows(taken_all(r, arrivals), base, parts, passed),
        taken_all(r, arrivals).received == r.received,
        taken_all(r, arrivals).is_shutdown == r.is_shutdown,
        taken_all(r, arrivals).connection_id_recv == r.connection_id_recv,
        taken_all(r, arrivals).connection_id_send == r.connection_id_send,
        taken_all(r, arrivals).local_addr == r.local_addr,
        taken_all(r, arrivals).remote_addr == r.remote_addr,
        taken_all(r, arrivals).seq_number == r.seq_number,
        taken_all(r, arrivals).unacked == r.unacked,
        forall|j: int|
            0 <= j < arrivals.len() && -ACCEPTABLE_DATA_DISTANCE <= indices[j] + 1 - passed
                <= ACCEPTABLE_DATA_DISTANCE ==> taken_all(r, arrivals).inbound.contains_key(
                (#[trigger] arrivals[j]).0.seq_number,
            ),
    decreases arrivals.len(),
{
    if arrivals.len() > 0 {
        let front = arrivals.drop_last();
        lemma_taken_all_follows(r, base, parts, passed, front, indices.drop_last());
        let before = taken_all(r, front);
        let last = arrivals.len() - 1;
        assert(carries(arrivals[last].0, base, parts, indices[last]));
        law_taken_follows(before, base, parts, passed, arrivals.last(), indices[last]);
        let after = taken_all(r, arrivals);
        assert forall|j: int|
            0 <= j < arrivals.len() && -ACCEPTABLE_DATA_DISTANCE <= indices[j] + 1 - passed
                <= ACCEPTABLE_DATA_DISTANCE implies after.inbound.contains_key(
            (#[trigger] arrivals[j]).0.seq_number,
        ) by {
            if j < last {
                assert(front[j] == arrivals[j]);
                assert(before.inbound.contains_key(front[j].0.seq_number));
            }
        }
    }
}

/// The packets of a buffer carry its parts, from the sequence number after `base` on.
proof fn lemma_packets_carry(s: StreamView, buf: Seq<u8>, times: Seq<u32>, base: u16)
    requires
        !s.is_shutdown,
        s.seq_number == seq_plus(base, 1),
        segments(buf, 0).len() <= times.len(),
    ensures
        ({
            let parts = segments(buf, 0);
            let (after, packets) = written_out(s, buf, 0, times);
            &&& packets.len() == parts.len()
            &&& forall|k: int|
                0 <= k < parts.len() ==> carries(#[trigger] packets[k], base, parts, k)
            &&& after.seq_number == seq_plus(base, parts.len() as int + 1)
            &&& after.connection_id_send == s.connection_id_send
            &&& after.local_addr == s.local_addr
            &&& after.remote_addr == s.remote_addr
        }),
{
    let parts = segments(buf, 0);
    let packets = written_out(s, buf, 0, times).1;
    law_written_out(s, buf, 0, times);
    assert forall|k: int| 0 <= k < parts.len() implies carries(
        #[trigger] packets[k],
        base,
        parts,
        k,
    ) by {
        lemma_steps_add(base, 1, k);
    }
    lemma_steps_add(base, 1, parts.len() as int);
}

/// All parts are passed on once they came in.
#[verifier::rlimit(30)]
proof fn lemma_all_passed_on(
    r: StreamView,
    parts: Seq<Seq<u8>>,
    arrivals: Seq<Arrival>,
    indices: Seq<int>,
)
    requires
        r.inbound == Map::<u16, Seq<u8>>::empty(),
        parts.len() <= ACCEPTABLE_DATA_DISTANCE,
        indices.len() == arrivals.len(),
        forall|j: int|
            0 <= j < arrivals.len() ==> carries(
                (#[trigger] arrivals[j]).0,
                r.ack_number,
                parts,
                indices[j],
            ),
        forall|k: int| 0 <= k < parts.len() ==> #[trigger] indices.contains(k),
    ensures
        ({
            let after = assembled(taken_all(r, arrivals));
            &&& after.received == r.received + joined(parts)
            &&& after.inbound == Map::<u16, Seq<u8>>::empty()
            &&& after.ack_number == seq_plus(r.ack_number, parts.len() as int)
            &&& after.connection_id_recv == r.connection_id_recv
            &&& after.local_addr == r.local_addr
            &&& after.remote_addr == r.remote_addr
        }),
{
    let n = parts.len() as int;
    let base = r.ack_number;
    assert(seq_plus(base, 0) == base);
    lemma_taken_all_follows(r, base, parts, 0, arrivals, indices);
    let held = taken_all(r, arrivals);
    law_assembled_follows(held, base, parts, 0);
    let now = in_order(held) as int;
    if now < n {
        assert(indices.contains(now));
        let j = choose|j: int| 0 <= j < indices.len() && indices[j] == now;
        assert(carries(arrivals[j].0, base, parts, indices[j]));
        assert(held.inbound.contains_key(arrivals[j].0.seq_number));
    }
    assert(parts.subrange(0, n) =~= parts);
    lemma_nothing_left(held, base, parts);
}

/// Nothing is held any more once all parts are passed on.
proof fn lemma_nothing_left(held: StreamView, base: u16, parts: Seq<Seq<u8>>)
    requires
        follows(held, base, parts, 0),
        in_order(held) == parts.len(),
    ensures
        assembled(held).inbound == Map::<u16, Seq<u8>>::empty(),
{
    let after = assembled(held);
    assert(seq_plus(base, 0) == base);
    assert forall|q: u16| !#[trigger] after.inbound.contains_key(q) by {
        if after.inbound.contains_key(q) {
            assert(held.inbound.contains_key(q));
            assert(seq_distance(seq_plus(base, 1), q) == seq_distance(base, q) - 1);
        }
    }
    assert(after.inbound =~= Map::empty());
}

/// The parts that came in, where all packets that carry a part did, and no others.
proof fn lemma_indices(
    packets: Seq<PacketView>,
    base: u16,
    parts: Seq<Seq<u8>>,
    arrivals: Seq<Arrival>,
) -> (indices: Seq<int>)
    requires
        packets.len() == parts.len() <= 0xffff,
        forall|k: int| 0 <= k < parts.len() ==> carries(#[trigger] packets[k], base, parts, k),
        forall|j: int|
            0 <= j < arrivals.len() ==> packets.contains((#[trigger] arrivals[j]).0),
        forall|k: int| 0 <= k < parts.len() ==> came_in(arrivals, #[trigger] packets[k]),
    ensures
        indices.len() == arrivals.len(),
        forall|j: int|
            0 <= j < arrivals.len() ==> carries(
                (#[trigger] arrivals[j]).0,
                base,
                parts,
                indices[j],
            ),
        forall|k: int| 0 <= k < parts.len() ==> #[trigger] indices.contains(k),
{
    let indices = Seq::new(
        arrivals.len(),
        |j: int| choose|k: int| 0 <= k < packets.len() && packets[k] == arrivals[j].0,
    );
    assert forall|j: int| 0 <= j < arrivals.len() implies carries(
        (#[trigger] arrivals[j]).0,
        base,
        parts,
        indices[j],
    ) by {
        assert(packets.contains(arrivals[j].0));
    }
    assert forall|k: int| 0 <= k < parts.len() implies #[trigger] indices.contains(k) by {
        assert(came_in(arrivals, packets[k]));
        let j = choose|j: int| 0 <= j < arrivals.len() && (#[trigger] arrivals[j]).0 == packets[k];
        lemma_carries_one(packets[k], base, parts, k, indices[j]);
    }
    indices
}

/// A packet carries one part.
proof fn lemma_carries_one(p: PacketView, base: u16, parts: Seq<Seq<u8>>, i: int, k: int)
    requires
        parts.len() <= 0xffff,
        carries(p, base, parts, i),
        carries(p, base, parts, k),
    ensures
        i == k,
{
    lemma_distance_after_steps(base, i + 1);
    lemma_distance_after_steps(base, k + 1);
}

/// A buffer that one connection writes is read by the other, whole and in order, where it takes
/// no more than 128 packets and each of them comes in: in any order, and any number of times.
/// Afterwards the connections are in step again.
#[verifier::rlimit(30)]
pub proof fn law_transfer(
    s: StreamView,
    r: StreamView,
    buf: Seq<u8>,
    times: Seq<u32>,
    arrivals: Seq<Arrival>,
)
    requires
        in_step(s, r),
        !s.is_shutdown,
        r.inbound == Map::<u16, Seq<u8>>::empty(),
        segments(buf, 0).len() <= ACCEPTABLE_DATA_DISTANCE,
        segments(buf, 0).len() <= times.len(),
        forall|j: int|
            0 <= j < arrivals.len() ==> written_out(s, buf, 0, times).1.contains(
                (#[trigger] arrivals[j]).0,
            ),
        forall|k: int|
            0 <= k < segments(buf, 0).len() ==> came_in(
                arrivals,
                #[trigger] written_out(s, buf, 0, times).1[k],
            ),
    ensures
        ({
            let s1 = written_out(s, buf, 0, times).0;
            let r1 = assembled(taken_all(r, arrivals));
            &&& r1.received == r.received + buf
            &&& r1.inbound == Map::<u16, Seq<u8>>::empty()
            &&& in_step(s1, r1)
        }),
{
    let parts = segments(buf, 0);
    let base = r.ack_number;
    let packets = written_out(s, buf, 0, times).1;
    lemma_packets_carry(s, buf, times, base);
    let indices = lemma_indices(packets, base, parts, arrivals);
    lemma_all_passed_on(r, parts, arrivals, indices);
    law_segments(buf, 0);
    assert(buf.skip(0) =~= buf);
    lemma_steps_add(base, parts.len() as int, 1);
}

/// What happens to a connection that reads.
pub enum ReadStep {
    /// A packet comes in.
    Arrives(Arrival),
    /// All data that is in order is passed on.
    PassOn,
}

/// The connection after some steps.
pub open spec fn after_steps(r: StreamView, steps: Seq<ReadStep>) -> StreamView
    decreases steps.len(),
{
    if steps.len() == 0 {
        r
    } else {
        after_step(after_steps(r, steps.drop_last()), steps.last())
    }
}

/// Whether a packet carries one of the parts, or is an acknowledgement.
pub open spec fn belongs(p: PacketView, base: u16, parts: Seq<Seq<u8>>) -> bool {
    p.packet_type == PacketType::State || exists|index: int| carries(p, base, parts, index)
}

/// How many of the parts are passed on after some steps.
pub open spec fn passed_on(r: StreamView, steps: Seq<ReadStep>) -> int
    decreases steps.len(),
{
    if steps.len() == 0 {
        0
    } else {
        let front = steps.drop_last();
        passed_on(r, front) + passed_by(after_steps(r, front), steps.last())
    }
}

/// The connection after a step.
pub open spec fn after_step(r: StreamView, step: ReadStep) -> StreamView {
    match step {
        ReadStep::Arrives(arrival) => taken(r, arrival),
        ReadStep::PassOn => assembled(r),
    }
}

/// How many parts a step passes on.
pub open spec fn passed_by(r: StreamView, step: ReadStep) -> int {
    match step {
        ReadStep::Arrives(_) => 0,
        ReadStep::PassOn => in_order(r) as int,
    }
}

/// A step passes on the next parts, or none.
proof fn lemma_read_step(
    r: StreamView,
    base: u16,
    parts: Seq<Seq<u8>>,
    passed: int,
    step: ReadStep,
)
    requires
        follows(r, base, parts, passed),
        step matches ReadStep::Arrives(arrival) ==> belongs(arrival.0, base, parts),
    ensures
        follows(after_step(r, step), base, parts, passed + passed_by(r, step)),
        after_step(r, step).received == r.received + joined(
            parts.subrange(passed, passed + passed_by(r, step)),
        ),
{
    match step {
        ReadStep::Arrives(arrival) => {
            assert(parts.subrange(passed, passed) =~= Seq::empty());
            assert(r.received + joined(parts.subrange(passed, passed)) =~= r.received);
            if arrival.0.packet_type != PacketType::State {
                let index = choose|index: int| carries(arrival.0, base, parts, index);
                law_taken_follows(r, base, parts, passed, arrival, index);
            }
        },
        ReadStep::PassOn => {
            law_assembled_follows(r, base, parts, passed);
        },
    }
}

/// More parts after the first ones are more of the first ones.
proof fn lemma_more_passed(received: Seq<u8>, parts: Seq<Seq<u8>>, passed: int, now: int)
    requires
        0 <= passed <= now <= parts.len(),
    ensures
        received + joined(parts.take(passed)) + joined(parts.subrange(passed, now)) == received
            + joined(parts.take(now)),
{
    assert(parts.take(now) =~= parts.take(passed) + parts.subrange(passed, now));
    lemma_joined_add(parts.take(passed), parts.subrange(passed, now));
    assert(received + joined(parts.take(passed)) + joined(parts.subrange(passed, now)) =~= received
        + joined(parts.take(now)));
}

/// Whatever happens to packets on their way, and whenever the data is passed on: what was
/// passed on at any time is what the peer sent, from its start up to some part. This holds of
/// the first 65535 parts; after that sequence numbers come again, and a packet that came in
/// twice may be taken for another.
#[verifier::rlimit(30)]
pub proof fn law_reads_what_was_sent(r: StreamView, parts: Seq<Seq<u8>>, steps: Seq<ReadStep>)
    requires
        r.inbound == Map::<u16, Seq<u8>>::empty(),
        parts.len() <= 0xffff,
        forall|i: int|
            0 <= i < steps.len() ==> ((#[trigger] steps[i]) matches ReadStep::Arrives(arrival)
                ==> belongs(arrival.0, r.ack_number, parts)),
    ensures
        0 <= passed_on(r, steps) <= parts.len(),
        follows(after_steps(r, steps), r.ack_number, parts, passed_on(r, steps)),
        after_steps(r, steps).received == r.received + joined(parts.take(passed_on(r, steps))),
    decreases steps.len(),
{
    let base = r.ack_number;
    if steps.len() == 0 {
        assert(seq_plus(base, 0) == base);
        assert(joined(parts.take(0)) =~= Seq::empty());
        assert(r.received + joined(parts.take(0)) =~= r.received);
    } else {
        let front = steps.drop_last();
        assert forall|i: int| 0 <= i < front.len() implies ((
        #[trigger] front[i]) matches ReadStep::Arrives(arrival) ==> belongs(
            arrival.0,
            base,
            parts,
        )) by {
            assert(front[i] == steps[i]);
        }
        law_reads_what_was_sent(r, parts, front);
        let before = after_steps(r, front);
        let passed = passed_on(r, front);
        assert(steps[steps.len() - 1] == steps.last());
        lemma_read_step(before, base, parts, passed, steps.last());
        let now = passed_on(r, steps);
        lemma_more_passed(r.received, parts, passed, now);
    }
}

/// The connection after packets came in one by one, and the data of each was passed on before
/// the next came in.
pub open spec fn read_promptly(r: StreamView, arrivals: Seq<Arrival>) -> StreamView
    decreases arrivals.len(),
{
    if arrivals.len() == 0 {
        r
    } else {
        read_promptly(assembled(taken(r, arrivals[0])), arrivals.skip(1))
    }
}

/// The packet that a connection waits for is passed on at once.
pub proof fn law_next_packet(r: StreamView, arrival: Arrival)
    requires
        r.inbound == Map::<u16, Seq<u8>>::empty(),
        arrival.0.packet_type == PacketType::Data,
        arrival.0.seq_number == seq_plus(r.ack_number, 1),
    ensures
        assembled(taken(r, arrival)) == (StreamView {
            received: r.received + arrival.0.data,
            ack_number: arrival.0.seq_number,
            congestion: r.congestion.observe(arrival.1, arrival.0),
            ..r
        }),
{
    let base = r.ack_number;
    let parts = seq![arrival.0.data];
    assert(seq_plus(base, 0) == base);
    assert(follows(r, base, parts, 0));
    assert(carries(arrival.0, base, parts, 0));
    law_taken_follows(r, base, parts, 0, arrival, 0);
    let held = taken(r, arrival);
    law_assembled_follows(held, base, parts, 0);
    assert(!suspicious(r, arrival.0));
    assert(held.inbound.contains_key(seq_plus(base, 1)));
    assert(in_order(held) == 1);
    assert(parts.subrange(0, 1) =~= parts);
    assert(joined(parts.skip(1)) =~= Seq::empty());
    assert(joined(parts) =~= arrival.0.data);
    let after = assembled(held);
    assert(after.inbound =~= Map::empty());
}

/// A buffer of any length is read whole where its packets come in in the order in which they
/// were sent, and the data of each is passed on before the next comes in.
pub proof fn law_transfer_in_order(
    s: StreamView,
    r: StreamView,
    buf: Seq<u8>,
    written: int,
    times: Seq<u32>,
    arrivals: Seq<Arrival>,
)
    requires
        in_step(s, r),
        !s.is_shutdown,
        r.inbound == Map::<u16, Seq<u8>>::empty(),
        0 <= written <= buf.len(),
        segments(buf, written).len() <= times.len(),
        arrivals.len() == written_out(s, buf, written, times).1.len(),
        forall|j: int|
            0 <= j < arrivals.len() ==> (#[trigger] arrivals[j]).0 == written_out(
                s,
                buf,
                written,
                times,
            ).1[j],
    ensures
        ({
            let s1 = written_out(s, buf, written, times).0;
            let r1 = read_promptly(r, arrivals);
            &&& r1.received == r.received + buf.skip(written)
            &&& r1.inbound == Map::<u16, Seq<u8>>::empty()
            &&& in_step(s1, r1)
        }),
    decreases buf.len() - written,
{
    let packets = written_out(s, buf, written, times).1;
    if written >= buf.len() {
        assert(r.received + buf.skip(written) =~= r.received);
    } else {
        let part = segment(buf, written);
        let next = written + part.len();
        let s1 = data_sent(s, part);
        let rest = arrivals.skip(1);
        let packets1 = written_out(s1, buf, next, times.skip(1)).1;
        assert(packets =~= seq![data_packet(s, part, times[0])] + packets1);
        assert(arrivals[0].0 == packets[0]);
        law_next_packet(r, arrivals[0]);
        assert forall|j: int| 0 <= j < rest.len() implies (#[trigger] rest[j]).0 == packets1[j] by {
            assert(rest[j] == arrivals[j + 1]);
            assert(packets[j + 1] == packets1[j]);
        }
        let r1 = assembled(taken(r, arrivals[0]));
        law_transfer_in_order(s1, r1, buf, next, times.skip(1), rest);
        assert(r.received + part + buf.skip(next) =~= r.received + buf.skip(written));
    }
}

/// Whether the packets in flight have sequence numbers in a row, up to the last that was sent.
pub open spec fn stream_wf(s: StreamView) -> bool {
    &&& s.unacked.len() <= 0xffff
    &&& forall|i: int|
        0 <= i < s.unacked.len() ==> (#[trigger] s.unacked[i]).0 == seq_plus(
            s.seq_number,
            i - s.unacked.len(),
        )
}

/// A connection with empty buffers is in good order.
pub proof fn law_fresh_stream_wf(
    local_addr: SocketAddr,
    remote_addr: SocketAddr,
    connection_id_recv: u16,
    connection_id_send: u16,
    seq_number: u16,
    ack_number: u16,
)
    ensures
        stream_wf(
            fresh_stream(
                local_addr,
                remote_addr,
                connection_id_recv,
                connection_id_send,
                seq_number,
                ack_number,
            ),
        ),
{
}

/// A connection stays in good order, whatever packets come in, are read and are sent. Sending
/// does as long as fewer than 65535 packets are in flight.
pub proof fn law_stream_wf_kept(s: StreamView, arrival: Arrival, data: Seq<u8>)
    requires
        stream_wf(s),
    ensures
        stream_wf(taken(s, arrival)),
        stream_wf(assembled(s)),
        s.unacked.len() < 0xffff ==> stream_wf(data_sent(s, data)),
{
    let (p, at) = arrival;
    lemma_acked_count_limit(s.unacked, p.ack_number, s.seq_number, true);
    let count = acked_count(s.unacked, p.ack_number, s.seq_number, true) as int;
    let after = taken(s, arrival);
    assert forall|i: int| 0 <= i < after.unacked.len() implies (#[trigger] after.unacked[i]).0
        == seq_plus(after.seq_number, i - after.unacked.len()) by {
        if after.unacked != s.unacked {
            assert(after.unacked[i] == s.unacked[i + count]);
        }
    }
    let sent = data_sent(s, data);
    assert forall|i: int| 0 <= i < sent.unacked.len() implies (#[trigger] sent.unacked[i]).0
        == seq_plus(sent.seq_number, i - sent.unacked.len()) by {
        lemma_steps_add(s.seq_number, 1, i - sent.unacked.len());
        if i < s.unacked.len() {
            assert(sent.unacked[i] == s.unacked[i]);
        } else {
            assert(seq_plus(s.seq_number, 0) == s.seq_number);
        }
    }
}

/// No more packets are acknowledged than are in flight.
proof fn lemma_acked_count_limit(
    unacked: Seq<(u16, Seq<u8>)>,
    ack_number: u16,
    seq_number: u16,
    timely: bool,
)
    ensures
        acked_count(unacked, ack_number, seq_number, timely) <= unacked.len(),
    decreases unacked.len(),
{
    if unacked.len() > 0 {
        lemma_acked_count_limit(unacked.skip(1), ack_number, seq_number, timely);
    }
}

/// A timely acknowledgement covers the packets up to its number.
proof fn lemma_acked_count(unacked: Seq<(u16, Seq<u8>)>, ack_number: u16, seq_number: u16)
    requires
        unacked.len() <= 0xffff,
        forall|i: int|
            0 <= i < unacked.len() ==> (#[trigger] unacked[i]).0 == seq_plus(
                seq_number,
                i - unacked.len(),
            ),
    ensures
        ({
            let back = seq_distance(ack_number, seq_number);
            acked_count(unacked, ack_number, seq_number, true) == if back == 0 {
                unacked.len() as int
            } else if back <= unacked.len() {
                unacked.len() - back + 1
            } else {
                0
            }
        }),
    decreases unacked.len(),
{
    if unacked.len() > 0 {
        let rest = unacked.skip(1);
        assert forall|i: int| 0 <= i < rest.len() implies (#[trigger] rest[i]).0 == seq_plus(
            seq_number,
            i - rest.len(),
        ) by {
            assert(rest[i] == unacked[i + 1]);
        }
        assert(unacked[0].0 == seq_plus(seq_number, 0 - unacked.len()));
        assert(seq_distance(unacked[0].0, seq_number) == unacked.len());
        lemma_acked_count(rest, ack_number, seq_number);
    }
}

/// An acknowledgement of the `count`-th packet in flight leaves those after it in flight, and no
/// others.
pub proof fn law_acknowledged(s: StreamView, arrival: Arrival, count: int)
    requires
        stream_wf(s),
        1 <= count <= s.unacked.len(),
        arrival.0.packet_type == PacketType::State,
        arrival.0.ack_number == s.unacked[count - 1].0,
    ensures
        taken(s, arrival).unacked == s.unacked.skip(count),
{
    lemma_acked_count(s.unacked, arrival.0.ack_number, s.seq_number);
    lemma_distance_to_sender(s, count - 1);
    assert(!suspicious(s, arrival.0));
}

/// An acknowledgement of a packet that is not in flight leaves all packets in flight.
pub proof fn law_not_acknowledged(s: StreamView, arrival: Arrival)
    requires
        stream_wf(s),
        arrival.0.packet_type == PacketType::State,
        forall|i: int|
            0 <= i < s.unacked.len() ==> (#[trigger] s.unacked[i]).0 != arrival.0.ack_number,
    ensures
        taken(s, arrival).unacked == s.unacked,
{
    let n = s.unacked.len() as int;
    let back = seq_distance(arrival.0.ack_number, s.seq_number);
    lemma_acked_count(s.unacked, arrival.0.ack_number, s.seq_number);
    if 1 <= back <= n {
        assert(s.unacked[n - back].0 == seq_plus(s.seq_number, -back));
        assert(seq_plus(s.seq_number, -back) == arrival.0.ack_number);
    }
    assert(s.unacked.skip(0) =~= s.unacked);
}

/// How far the packets in flight are from the next that is sent.
proof fn lemma_distance_to_sender(s: StreamView, i: int)
    requires
        stream_wf(s),
        0 <= i < s.unacked.len(),
    ensures
        seq_distance(s.unacked[i].0, s.seq_number) == s.unacked.len() - i,
{
    assert(s.unacked[i].0 == seq_plus(s.seq_number, i - s.unacked.len()));
}

/// Once the peer has passed on all that was written, its acknowledgement leaves nothing in
/// flight.
pub proof fn law_flushed(s: StreamView, r: StreamView, now: u32, at: u32)
    requires
        stream_wf(s),
        in_step(s, r),
    ensures
        taken(s, (ack_packet(r, now), at)).unacked.len() == 0,
{
    let n = s.unacked.len() as int;
    let arrival = (ack_packet(r, now), at);
    if n > 0 {
        assert(s.unacked[n - 1].0 == seq_plus(s.seq_number, -1));
        lemma_steps_add(r.ack_number, 1, -1);
        assert(seq_plus(r.ack_number, 0) == r.ack_number);
        law_acknowledged(s, arrival, n);
    } else {
        lemma_acked_count_limit(s.unacked, arrival.0.ack_number, s.seq_number, true);
        lemma_acked_count_limit(s.unacked, arrival.0.ack_number, s.seq_number, false);
    }
}

/// Written data stays in flight until it is acknowledged: the last packets leave only when a
/// packet comes in that acknowledges the last one that was sent, and with it all before.
pub proof fn law_not_flushed_early(s: StreamView, arrival: Arrival)
    requires
        stream_wf(s),
        is_data_or_state(arrival.0.packet_type),
        s.unacked.len() > 0,
        taken(s, arrival).unacked.len() == 0,
    ensures
        arrival.0.packet_type == PacketType::State,
        !suspicious(s, arrival.0),
        arrival.0.ack_number == s.unacked.last().0,
{
    let n = s.unacked.len() as int;
    lemma_acked_count(s.unacked, arrival.0.ack_number, s.seq_number);
    assert(s.unacked[n - 1].0 == seq_plus(s.seq_number, -1));
    assert(seq_distance(arrival.0.ack_number, s.seq_number) == 1);
}

/// The packets that a connection does not ignore, out of some that come in.
pub open spec fn heeded(s: StreamView, arrivals: Seq<Arrival>) -> Seq<Arrival>
    decreases arrivals.len(),
{
    if arrivals.len() == 0 {
        Seq::empty()
    } else {
        let front = arrivals.drop_last();
        if suspicious(taken_all(s, front), arrivals.last().0) {
            heeded(s, front)
        } else {
            heeded(s, front).push(arrivals.last())
        }
    }
}

/// Windows and delays are those of the packets that were not ignored.
pub proof fn law_taken_all_observes(s: StreamView, arrivals: Seq<Arrival>)
    ensures
        taken_all(s, arrivals).congestion == s.congestion.observe_all(heeded(s, arrivals)),
    decreases arrivals.len(),
{
    if arrivals.len() > 0 {
        let front = arrivals.drop_last();
        law_taken_all_observes(s, front);
        assert(heeded(s, front).push(arrivals.last()).drop_last() =~= heeded(s, front));
    }
}

/// Joining parts puts them one after the other: nothing joins to nothing, one part to itself, and
/// two lists to what they join to.
pub proof fn law_joined(part: Seq<u8>, front: Seq<Seq<u8>>, back: Seq<Seq<u8>>)
    ensures
        joined(Seq::empty()).len() == 0,
        joined(seq![part]) == part,
        joined(front + back) == joined(front) + joined(back),
{
    assert(joined(seq![part].skip(1)) =~= Seq::empty());
    assert(joined(seq![part]) =~= part);
    lemma_joined_add(front, back);
}

/// What is passed on is the data that is held under the numbers after the last one passed on, up
/// to the first number that nothing is held under. It goes after what was passed on before, and
/// is not held any more. The last of these numbers is the one to acknowledge. What is sent, and
/// what is in flight, does not change.
pub proof fn law_passed_on(s: StreamView)
    ensures
        ({
            let t = assembled(s);
            let n = in_order(s) as int;
            &&& n <= 0x1_0000
            &&& t.ack_number == (s.ack_number + n) % 0x1_0000
            &&& forall|i: int|
                1 <= i <= n ==> s.inbound.contains_key(#[trigger] seq_plus(s.ack_number, i))
            &&& n < 0x1_0000 ==> !s.inbound.contains_key(seq_plus(s.ack_number, n + 1))
            &&& t.received == s.received + joined(
                Seq::new(n as nat, |i: int| s.inbound[seq_plus(s.ack_number, i + 1)]),
            )
            &&& forall|q: u16| #[trigger]
                t.inbound.contains_key(q) <==> s.inbound.contains_key(q) && (q - s.ack_number - 1)
                    % 0x1_0000 >= n
            &&& forall|q: u16| #[trigger]
                t.inbound.contains_key(q) ==> t.inbound[q] == s.inbound[q]
            &&& t.seq_number == s.seq_number
            &&& t.unacked == s.unacked
            &&& t.congestion == s.congestion
            &&& t.is_shutdown == s.is_shutdown
            &&& t.local_addr == s.local_addr
            &&& t.remote_addr == s.remote_addr
            &&& t.connection_id_recv == s.connection_id_recv
            &&& t.connection_id_send == s.connection_id_send
        }),
{
    let next = seq_plus(s.ack_number, 1);
    let n = in_order(s) as int;
    lemma_run(s.inbound, next, 0x1_0000);
    assert forall|i: int| #[trigger] seq_plus(next, i) == seq_plus(s.ack_number, i + 1) by {
        lemma_steps_add(s.ack_number, 1, i);
    }
    assert forall|i: int| 1 <= i <= n implies s.inbound.contains_key(
        #[trigger] seq_plus(s.ack_number, i),
    ) by {
        assert(s.inbound.contains_key(seq_plus(next, i - 1)));
    }
    lemma_run_data_joined(s.inbound, next, n as nat);
    assert(Seq::new(n as nat, |i: int| s.inbound[seq_plus(next, i)]) =~= Seq::new(
        n as nat,
        |i: int| s.inbound[seq_plus(s.ack_number, i + 1)],
    ));
    assert forall|q: u16| #[trigger] seq_distance(next, q) == (q - s.ack_number - 1) % 0x1_0000 by {
    }
}

/// The data of some numbers in a row is what is held under them, joined.
proof fn lemma_run_data_joined(inbound: Map<u16, Seq<u8>>, next: u16, n: nat)
    ensures
        run_data(inbound, next, n) == joined(
            Seq::new(n, |i: int| inbound[seq_plus(next, i)]),
        ),
    decreases n,
{
    let parts = Seq::new(n, |i: int| inbound[seq_plus(next, i)]);
    if n > 0 {
        let front = Seq::new((n - 1) as nat, |i: int| inbound[seq_plus(next, i)]);
        let last = inbound[seq_plus(next, n - 1)];
        lemma_run_data_joined(inbound, next, (n - 1) as nat);
        law_joined(last, front, seq![last]);
        assert(parts =~= front + seq![last]);
    }
}

/// Two connections are in step where each is the peer of the other, the packets of the first go
/// to the second, and the second waits for the next of them.
pub proof fn law_in_step(s: StreamView, r: StreamView)
    ensures
        in_step(s, r) <==> s.connection_id_send == r.connection_id_recv && s.remote_addr
            == r.local_addr && s.local_addr == r.remote_addr && s.seq_number == (r.ack_number + 1)
            % 0x1_0000,
{
}

/// A connection is in good order where the packets in flight are the last that were sent: the
/// last of them has the number before the next, and each the number before the one after it.
pub proof fn law_stream_wf(s: StreamView)
    ensures
        stream_wf(s) <==> s.unacked.len() <= 0xffff && forall|i: int|
            0 <= i < s.unacked.len() ==> ((#[trigger] s.unacked[i]).0 + s.unacked.len() - i)
                % 0x1_0000 == s.seq_number,
{
    let n = s.unacked.len();
    assert forall|i: int| 0 <= i < n && n <= 0xffff implies ((#[trigger] s.unacked[i]).0
        == seq_plus(s.seq_number, i - n)) == ((s.unacked[i].0 + n - i) % 0x1_0000 == s.seq_number)
        by {}
}

/// An acknowledgement leaves two connections in step, and so does any other packet that comes in
/// to the one that sends.
pub proof fn law_still_in_step(s: StreamView, r: StreamView, arrival: Arrival, now: u32, at: u32)
    requires
        in_step(s, r),
    ensures
        in_step(taken(s, (ack_packet(r, now), at)), r),
        in_step(taken(s, arrival), r),
        in_step(assembled(s), r),
{
    law_taken(s, (ack_packet(r, now), at));
    law_taken(s, arrival);
}

/// A second buffer that is written after the first was acknowledged is read whole as well: what
/// was read of both is one after the other.
pub proof fn law_transfer_twice(
    s: StreamView,
    r: StreamView,
    first: Seq<u8>,
    first_times: Seq<u32>,
    first_arrivals: Seq<Arrival>,
    now: u32,
    at: u32,
    second: Seq<u8>,
    second_times: Seq<u32>,
    second_arrivals: Seq<Arrival>,
)
    requires
        in_step(s, r),
        !s.is_shutdown,
        r.inbound == Map::<u16, Seq<u8>>::empty(),
        segments(first, 0).len() <= ACCEPTABLE_DATA_DISTANCE,
        segments(first, 0).len() <= first_times.len(),
        segments(second, 0).len() <= ACCEPTABLE_DATA_DISTANCE,
        segments(second, 0).len() <= second_times.len(),
        all_came_in(written_out(s, first, 0, first_times).1, first_arrivals),
        ({
            let s1 = written_out(s, first, 0, first_times).0;
            let r1 = assembled(taken_all(r, first_arrivals));
            let s2 = taken(s1, (ack_packet(r1, now), at));
            all_came_in(written_out(s2, second, 0, second_times).1, second_arrivals)
        }),
    ensures
        ({
            let r1 = assembled(taken_all(r, first_arrivals));
            let r2 = assembled(taken_all(r1, second_arrivals));
            &&& r1.received == r.received + first
            &&& r2.received == r.received + first + second
        }),
{
    let s1 = written_out(s, first, 0, first_times).0;
    let r1 = assembled(taken_all(r, first_arrivals));
    let s2 = taken(s1, (ack_packet(r1, now), at));
    law_written_out(s, first, 0, first_times);
    law_transfer(s, r, first, first_times, first_arrivals);
    law_taken(s1, (ack_packet(r1, now), at));
    law_still_in_step(s1, r1, (ack_packet(r1, now), at), now, at);
    law_written_out(s2, second, 0, second_times);
    law_transfer(s2, r1, second, second_times, second_arrivals);
}

/// Whether the packets that came in are some packets: each of these, and no others.
pub open spec fn all_came_in(packets: Seq<PacketView>, arrivals: Seq<Arrival>) -> bool {
    &&& forall|j: int|
        0 <= j < arrivals.len() ==> packets.contains((#[trigger] arrivals[j]).0)
    &&& forall|k: int| 0 <= k < packets.len() ==> came_in(arrivals, #[trigger] packets[k])
}

/// Packets of a connection get to the mailbox of its peer, where the two are in step in both
/// directions and the peer is in the routing table of its socket: acknowledgements and data
/// alike, whatever the buffers hold.
pub proof fn law_packets_get_there(
    s: StreamView,
    r: StreamView,
    data: Seq<u8>,
    now: u32,
    routes: Map<RouteKey, u64>,
    packet: Packet,
    action: ReceiverAction,
)
    requires
        in_step(s, r),
        in_step(r, s),
        routes.contains_key(route_key(s.connection_id_recv, s.remote_addr)),
        packet@ == ack_packet(r, now) || packet@ == data_packet(r, data, now),
        dispatched(routes, packet, r.local_addr, action),
    ensures
        action == (ReceiverAction::Deliver {
            mailbox: routes[route_key(s.connection_id_recv, s.remote_addr)],
            packet,
            remote_addr: r.local_addr,
        }),
{
    assert(packet.connection_id == packet@.connection_id);
}

/// The packet that asks for a connection goes to the listeners of the socket that it is sent to.
pub proof fn law_syn_gets_there(connection_id: u16, from: SocketAddr, action: ReceiverAction)
    requires
        received(encode(syn_packet(connection_id)), from, action),
    ensures
        action matches ReceiverAction::SaveSyn(packet, addr) && packet@ == syn_packet(connection_id)
            && addr == from,
{
    law_decode_encode(syn_packet(connection_id));
}

/// The answer goes to the mailbox of the connection that was asked for, and is of the one type
/// that can finish it. Whatever the packet was that asked.
pub proof fn law_answer_gets_there(
    syn: PacketView,
    seq_number: u16,
    from: SocketAddr,
    routes: Map<RouteKey, u64>,
    first: ReceiverAction,
    second: ReceiverAction,
)
    requires
        received(encode(syn_ack_packet(syn, seq_number)), from, first),
        first matches ReceiverAction::Route(packet, addr) ==> dispatched(
            routes,
            packet,
            addr,
            second,
        ),
        routes.contains_key(route_key(syn.connection_id, from)),
    ensures
        first is Route,
        second matches ReceiverAction::Deliver { mailbox, packet, remote_addr } && mailbox
            == routes[route_key(syn.connection_id, from)] && packet.packet_type
            == PacketType::State && packet@ == syn_ack_packet(syn, seq_number) && remote_addr
            == from,
{
    law_decode_encode(syn_ack_packet(syn, seq_number));
}

} // verus!
