//! What a connection knows of the load on its path.

use crate::packet::Packet;
use crate::wire::PacketView;
use vstd::prelude::*;

verus! {

/// The number of bytes that can be received at first.
pub const LOCAL_RECEIVE_WINDOW_SIZE: u32 = 1024 * 1024;

/// The number of bytes in the largest Ethernet frame. One packet can be sent with it.
pub const ETHERNET_MTU: u32 = 1500;

/// The time from `earlier` to `later` on a clock of 32 bits.
pub open spec fn delay_between(earlier: u32, later: u32) -> u32 {
    ((later - earlier) % 0x1_0000_0000) as u32
}

/// The lower of two delays.
pub open spec fn lower(a: u32, b: u32) -> u32 {
    if b < a {
        b
    } else {
        a
    }
}

/// The lowest of some delays, and `u32::MAX` where there is none.
pub open spec fn lowest(delays: Seq<u32>) -> u32
    decreases delays.len(),
{
    if delays.len() == 0 {
        u32::MAX
    } else {
        lower(lowest(delays.drop_last()), delays.last())
    }
}

/// The windows and delays of a connection.
pub struct CongestionController {
    /// Number of bytes in flight. It starts at zero, and is not kept up to date.
    pub current_window: u32,
    /// Number of bytes that can be received. It starts at [`LOCAL_RECEIVE_WINDOW_SIZE`], and is
    /// not kept up to date.
    pub local_receive_window: u32,
    /// Number of bytes that the peer can receive, as it last told.
    pub remote_receive_window: u32,
    /// The lowest delay ever seen here, in microseconds.
    pub local_base_delay: u32,
    /// The lowest delay ever seen by the peer, in microseconds.
    pub remote_base_delay: u32,
    /// The differences between the delays seen here and the lowest until then, oldest first.
    pub local_delay_samples: Vec<u32>,
    /// The differences between the delays seen by the peer and the lowest until then, oldest
    /// first.
    pub remote_delay_samples: Vec<u32>,
}

/// The windows and delays of a connection, with the samples as sequences.
pub struct CongestionView {
    pub current_window: u32,
    pub local_receive_window: u32,
    pub remote_receive_window: u32,
    pub local_base_delay: u32,
    pub remote_base_delay: u32,
    pub local_delay_samples: Seq<u32>,
    pub remote_delay_samples: Seq<u32>,
}

impl CongestionView {
    /// What is known after a packet that came in at the given time.
    pub open spec fn observe(self, received_at: u32, packet: PacketView) -> Self {
        let local_delay = delay_between(packet.timestamp_micros, received_at);
        let remote_delay = packet.timestamp_delta_micros;
        let local_base_delay = lower(self.local_base_delay, local_delay);
        let remote_base_delay = lower(self.remote_base_delay, remote_delay);
        CongestionView {
            remote_receive_window: packet.window_size,
            local_base_delay,
            remote_base_delay,
            local_delay_samples: self.local_delay_samples.push(
                (local_delay - local_base_delay) as u32,
            ),
            remote_delay_samples: self.remote_delay_samples.push(
                (remote_delay - remote_base_delay) as u32,
            ),
            ..self
        }
    }

    /// What is known after some packets, each with the time when it came in, oldest first.
    pub open spec fn observe_all(self, arrivals: Seq<(PacketView, u32)>) -> Self
        decreases arrivals.len(),
    {
        if arrivals.len() == 0 {
            self
        } else {
            self.observe_all(arrivals.drop_last()).observe(arrivals.last().1, arrivals.last().0)
        }
    }
}

/// The delays of some packets, as seen here.
pub open spec fn local_delays(arrivals: Seq<(PacketView, u32)>) -> Seq<u32> {
    Seq::new(
        arrivals.len(),
        |i: int| delay_between(arrivals[i].0.timestamp_micros, arrivals[i].1),
    )
}

/// The delays that some packets tell of, as seen by the peer.
pub open spec fn remote_delays(arrivals: Seq<(PacketView, u32)>) -> Seq<u32> {
    Seq::new(arrivals.len(), |i: int| arrivals[i].0.timestamp_delta_micros)
}

/// How far each delay is above the lowest until then.
pub open spec fn above_lowest(delays: Seq<u32>) -> Seq<u32> {
    Seq::new(delays.len(), |i: int| (delays[i] - lowest(delays.take(i + 1))) as u32)
}

/// What is known before any packet came in.
pub open spec fn nothing_observed() -> CongestionView {
    CongestionView {
        current_window: 0,
        local_receive_window: LOCAL_RECEIVE_WINDOW_SIZE,
        remote_receive_window: ETHERNET_MTU,
        local_base_delay: u32::MAX,
        remote_base_delay: u32::MAX,
        local_delay_samples: Seq::empty(),
        remote_delay_samples: Seq::empty(),
    }
}

impl View for CongestionController {
    type V = CongestionView;

    open spec fn view(&self) -> CongestionView {
        CongestionView {
            current_window: self.current_window,
            local_receive_window: self.local_receive_window,
            remote_receive_window: self.remote_receive_window,
            local_base_delay: self.local_base_delay,
            remote_base_delay: self.remote_base_delay,
            local_delay_samples: self.local_delay_samples@,
            remote_delay_samples: self.remote_delay_samples@,
        }
    }
}

impl CongestionController {
    /// A controller that has seen no packet.
    pub fn new() -> (r: Self)
        ensures
            r@ == nothing_observed(),
    {
        Self {
            current_window: 0,
            local_receive_window: LOCAL_RECEIVE_WINDOW_SIZE,
            remote_receive_window: ETHERNET_MTU,
            local_base_delay: u32::MAX,
            remote_base_delay: u32::MAX,
            local_delay_samples: Vec::new(),
            remote_delay_samples: Vec::new(),
        }
    }

    /// Takes note of a packet that came in at the given time.
    pub fn update_state(&mut self, received_at: u32, received_packet: &Packet)
        ensures
            final(self)@ == old(self)@.observe(received_at, received_packet@),
    {
        let local_delay = received_at.wrapping_sub(received_packet.timestamp_micros);
        let remote_delay = received_packet.timestamp_delta_micros;

        if local_delay < self.local_base_delay {
            self.local_base_delay = local_delay;
        }
        if remote_delay < self.remote_base_delay {
            self.remote_base_delay = remote_delay;
        }

        self.local_delay_samples.push(local_delay - self.local_base_delay);
        self.remote_delay_samples.push(remote_delay - self.remote_base_delay);

        self.remote_receive_window = received_packet.window_size;
    }
}

/// The base delays are the lowest ever seen, and each sample is the difference between a delay
/// and the lowest until then. The peer can receive what its last packet told. The other windows
/// are as they were at first.
pub proof fn law_observed(arrivals: Seq<(PacketView, u32)>)
    ensures
        ({
            let v = nothing_observed().observe_all(arrivals);
            &&& v.local_base_delay == lowest(local_delays(arrivals))
            &&& v.remote_base_delay == lowest(remote_delays(arrivals))
            &&& v.local_delay_samples == above_lowest(local_delays(arrivals))
            &&& v.remote_delay_samples == above_lowest(remote_delays(arrivals))
            &&& v.current_window == 0
            &&& v.local_receive_window == LOCAL_RECEIVE_WINDOW_SIZE
            &&& v.remote_receive_window == if arrivals.len() == 0 {
                ETHERNET_MTU
            } else {
                arrivals.last().0.window_size
            }
        }),
    decreases arrivals.len(),
{
    let v = nothing_observed().observe_all(arrivals);
    if arrivals.len() > 0 {
        let front = arrivals.drop_last();
        law_observed(front);
        assert(local_delays(arrivals).drop_last() =~= local_delays(front));
        assert(remote_delays(arrivals).drop_last() =~= remote_delays(front));
        lemma_above_lowest(local_delays(arrivals));
        lemma_above_lowest(remote_delays(arrivals));
    } else {
        assert(above_lowest(local_delays(arrivals)) =~= Seq::empty());
        assert(above_lowest(remote_delays(arrivals)) =~= Seq::empty());
    }
}

/// How far the last of some delays is above the lowest, after all others.
proof fn lemma_above_lowest(delays: Seq<u32>)
    requires
        delays.len() > 0,
    ensures
        above_lowest(delays) == above_lowest(delays.drop_last()).push(
            (delays.last() - lowest(delays)) as u32,
        ),
{
    let front = delays.drop_last();
    assert forall|i: int| 0 <= i < front.len() implies delays.take(i + 1) == #[trigger] front.take(
        i + 1,
    ) by {
        assert(delays.take(i + 1) =~= front.take(i + 1));
    }
    assert(delays.take(delays.len() as int) =~= delays);
    assert(above_lowest(delays) =~= above_lowest(front).push(
        (delays.last() - lowest(delays)) as u32,
    ));
}

/// The lowest of some delays is one of them, where there is any, and none is below it.
pub proof fn law_lowest(samples: Seq<u32>)
    ensures
        samples.len() > 0 ==> samples.contains(lowest(samples)),
        forall|i: int| 0 <= i < samples.len() ==> lowest(samples) <= #[trigger] samples[i],
    decreases samples.len(),
{
    if samples.len() > 0 {
        let front = samples.drop_last();
        law_lowest(front);
        assert forall|i: int| 0 <= i < samples.len() implies lowest(samples) <= #[trigger] samples[i]
            by {
            if i < front.len() {
                assert(front[i] == samples[i]);
            }
        }
        if samples.last() < lowest(front) || front.len() == 0 {
            assert(samples[samples.len() - 1] == lowest(samples));
        } else {
            let i = choose|i: int| 0 <= i < front.len() && front[i] == lowest(front);
            assert(samples[i] == lowest(samples));
        }
    }
}

/// A packet adds one sample on each side. The time when it was sent, the lowest delay and the
/// sample add up to the time when it came in; on the side of the peer, the lowest delay and the
/// sample add up to the delay that the packet tells of. Lowest delays never go up, and go down
/// only to the delay of the packet.
pub proof fn law_observe(v: CongestionView, received_at: u32, packet: PacketView)
    ensures
        ({
            let w = v.observe(received_at, packet);
            let n = v.local_delay_samples.len() as int;
            let m = v.remote_delay_samples.len() as int;
            &&& w.local_delay_samples.len() == n + 1
            &&& w.remote_delay_samples.len() == m + 1
            &&& w.local_delay_samples.take(n) == v.local_delay_samples
            &&& w.remote_delay_samples.take(m) == v.remote_delay_samples
            &&& (packet.timestamp_micros + w.local_base_delay + w.local_delay_samples[n])
                % 0x1_0000_0000 == received_at
            &&& w.local_base_delay + w.local_delay_samples[n] <= 0xffff_ffff
            &&& w.remote_base_delay + w.remote_delay_samples[m] == packet.timestamp_delta_micros
            &&& w.local_base_delay <= v.local_base_delay
            &&& w.remote_base_delay <= v.remote_base_delay
            &&& w.local_base_delay < v.local_base_delay ==> w.local_delay_samples[n] == 0
            &&& w.remote_base_delay < v.remote_base_delay ==> w.remote_delay_samples[m] == 0
            &&& w.remote_receive_window == packet.window_size
            &&& w.current_window == v.current_window
            &&& w.local_receive_window == v.local_receive_window
        }),
{
    let w = v.observe(received_at, packet);
    let n = v.local_delay_samples.len() as int;
    let m = v.remote_delay_samples.len() as int;
    assert(w.local_delay_samples.take(n) =~= v.local_delay_samples);
    assert(w.remote_delay_samples.take(m) =~= v.remote_delay_samples);
}

/// At first one mebibyte can be received and one Ethernet frame sent, nothing is in flight, and
/// no delay is known.
pub proof fn law_nothing_observed()
    ensures
        ({
            let v = nothing_observed();
            &&& v.current_window == 0
            &&& v.local_receive_window == 1_048_576
            &&& v.remote_receive_window == 1500
            &&& v.local_base_delay == 0xffff_ffff
            &&& v.remote_base_delay == 0xffff_ffff
            &&& v.local_delay_samples.len() == 0
            &&& v.remote_delay_samples.len() == 0
        }),
{
}

/// What is known of a connection is what its controller holds.
pub proof fn law_controller_view(c: CongestionController)
    ensures
        c@.current_window == c.current_window,
        c@.local_receive_window == c.local_receive_window,
        c@.remote_receive_window == c.remote_receive_window,
        c@.local_base_delay == c.local_base_delay,
        c@.remote_base_delay == c.remote_base_delay,
        c@.local_delay_samples == c.local_delay_samples@,
        c@.remote_delay_samples == c.remote_delay_samples@,
{
}

/// Packets are taken note of one after the other.
pub proof fn law_observe_all(
    v: CongestionView,
    arrivals: Seq<(PacketView, u32)>,
    packet: PacketView,
    received_at: u32,
)
    ensures
        v.observe_all(Seq::empty()) == v,
        v.observe_all(arrivals.push((packet, received_at))) == v.observe_all(arrivals).observe(
            received_at,
            packet,
        ),
{
    assert(arrivals.push((packet, received_at)).drop_last() =~= arrivals);
}

} // verus!
