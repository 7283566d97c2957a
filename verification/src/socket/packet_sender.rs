//! What the task that sends packets does next.
//!
//! The task takes packets from the queue of the socket and sends them in the order in which
//! they were queued. It tells [`PacketSender::poll`] what happened, and is told what to do.

use crate::addr::SocketAddr;
use crate::buffer::{buffer_limit, contents};
use crate::packet::Packet;
use crate::wire::{encode, PacketView};
use bytes::Bytes;
use std::collections::VecDeque;
use vstd::prelude::*;

verus! {

/// What happened to the task that sends packets.
pub enum SenderEvent {
    /// The task was woken up.
    Woken,
    /// A packet was taken from the queue of the socket.
    Queued(Packet, SocketAddr),
    /// The queue of the socket does not exist any more.
    QueueClosed,
    /// There is no packet in the queue of the socket.
    QueueEmpty,
    /// The socket was looked for.
    SocketChecked { alive: bool },
    /// The packet was sent.
    Sent,
    /// The packet could not be sent.
    SendFailed,
    /// The socket cannot send a packet yet.
    SendPending,
}

/// What the task that sends packets is to do.
pub enum SenderAction {
    /// Take a packet from the queue of the socket.
    PollQueue,
    /// Look whether the socket still exists.
    CheckSocket,
    /// Send the bytes of a packet.
    Send(Bytes, SocketAddr),
    /// Wait to be woken up.
    Sleep,
    /// End the task.
    ShutDown,
}

/// A packet to be sent, and where to.
pub type Outgoing = (PacketView, SocketAddr);

/// The task that sends packets.
pub struct PacketSender {
    /// The packets that were taken from the queue and are not sent yet, oldest first.
    pub outgoing_buffer: VecDeque<(Packet, SocketAddr)>,
}

impl PacketSender {
    /// Whether a buffer can grow to hold the bytes of any of the packets.
    pub open spec fn wf(&self) -> bool {
        forall|i: int|
            0 <= i < self.outgoing_buffer@.len() ==> encode(
                (#[trigger] self.outgoing_buffer@[i]).0@,
            ).len() <= buffer_limit()
    }

    /// The packets that are not sent yet, oldest first.
    pub open spec fn waiting(&self) -> Seq<Outgoing> {
        Seq::new(
            self.outgoing_buffer@.len(),
            |i: int| (self.outgoing_buffer@[i].0@, self.outgoing_buffer@[i].1),
        )
    }

    /// A task that has no packet to send.
    pub fn new() -> (r: Self)
        ensures
            r.wf(),
            r.waiting() == Seq::<Outgoing>::empty(),
    {
        let r = Self { outgoing_buffer: VecDeque::new() };
        assert(r.waiting() =~= Seq::empty());
        r
    }

    /// What to do after an event.
    pub fn poll(&mut self, event: SenderEvent) -> (action: SenderAction)
        requires
            old(self).wf(),
            event matches SenderEvent::Queued(packet, _) ==> encode(packet@).len() <= buffer_limit(),
        ensures
            final(self).wf(),
            final(self).waiting() == waiting_after(old(self).waiting(), event),
            match event {
                SenderEvent::Woken => action is PollQueue,
                SenderEvent::Queued(..) => action is PollQueue,
                SenderEvent::QueueClosed => action is ShutDown,
                SenderEvent::QueueEmpty => action is CheckSocket,
                SenderEvent::SocketChecked { alive } => if alive {
                    sends_first(final(self).waiting(), action)
                } else {
                    action is ShutDown
                },
                SenderEvent::Sent => sends_first(final(self).waiting(), action),
                SenderEvent::SendFailed => sends_first(final(self).waiting(), action),
                SenderEvent::SendPending => action is Sleep,
            },
    {
        match event {
            SenderEvent::Woken => SenderAction::PollQueue,
            // As many packets as possible are fetched before any is sent.
            SenderEvent::Queued(packet, remote_addr) => {
                self.outgoing_buffer.push_back((packet, remote_addr));
                assert(self.waiting() =~= old(self).waiting().push((packet@, remote_addr)));
                SenderAction::PollQueue
            },
            // The queue goes with the socket.
            SenderEvent::QueueClosed => SenderAction::ShutDown,
            SenderEvent::QueueEmpty => SenderAction::CheckSocket,
            SenderEvent::SocketChecked { alive: false } => SenderAction::ShutDown,
            SenderEvent::SocketChecked { alive: true } => self.send_first(),
            SenderEvent::Sent => {
                let _ = self.outgoing_buffer.pop_front();
                assert(self.waiting() =~= waiting_after(old(self).waiting(), event));
                self.send_first()
            },
            // The packet is still the first, and is tried again.
            SenderEvent::SendFailed => self.send_first(),
            // The packet is still the first, and is tried again after the next wakeup.
            SenderEvent::SendPending => SenderAction::Sleep,
        }
    }

    /// Sends the oldest packet, and waits for more where there is none.
    fn send_first(&self) -> (action: SenderAction)
        requires
            self.wf(),
        ensures
            sends_first(self.waiting(), action),
    {
        if self.outgoing_buffer.len() == 0 {
            SenderAction::Sleep
        } else {
            let first = &self.outgoing_buffer[0];
            SenderAction::Send(first.0.to_bytes(), first.1)
        }
    }
}

/// Whether an action sends the oldest packet, or sleeps where there is none.
pub open spec fn sends_first(waiting: Seq<Outgoing>, action: SenderAction) -> bool {
    if waiting.len() == 0 {
        action is Sleep
    } else {
        action matches SenderAction::Send(bytes, remote_addr) && contents(bytes) == encode(
            waiting[0].0,
        ) && remote_addr == waiting[0].1
    }
}

/// The packets that an event adds to those that are to be sent.
pub open spec fn queued_by(event: SenderEvent) -> Seq<Outgoing> {
    match event {
        SenderEvent::Queued(packet, remote_addr) => seq![(packet@, remote_addr)],
        _ => Seq::empty(),
    }
}

/// The packets that were sent when an event comes.
pub open spec fn sent_by(waiting: Seq<Outgoing>, event: SenderEvent) -> Seq<Outgoing> {
    match event {
        SenderEvent::Sent => if waiting.len() == 0 {
            Seq::empty()
        } else {
            seq![waiting[0]]
        },
        _ => Seq::empty(),
    }
}

/// The packets that are to be sent after an event.
pub open spec fn waiting_after(waiting: Seq<Outgoing>, event: SenderEvent) -> Seq<Outgoing> {
    match event {
        SenderEvent::Queued(packet, remote_addr) => waiting.push((packet@, remote_addr)),
        SenderEvent::Sent => if waiting.len() == 0 {
            waiting
        } else {
            waiting.skip(1)
        },
        _ => waiting,
    }
}

/// The packets that are to be sent after some events.
pub open spec fn waiting_after_all(waiting: Seq<Outgoing>, events: Seq<SenderEvent>) -> Seq<
    Outgoing,
>
    decreases events.len(),
{
    if events.len() == 0 {
        waiting
    } else {
        waiting_after(waiting_after_all(waiting, events.drop_last()), events.last())
    }
}

/// The packets that some events add to those that are to be sent, in their order.
pub open spec fn queued_by_all(events: Seq<SenderEvent>) -> Seq<Outgoing>
    decreases events.len(),
{
    if events.len() == 0 {
        Seq::empty()
    } else {
        queued_by_all(events.drop_last()) + queued_by(events.last())
    }
}

/// The packets that were sent in the course of some events, in their order.
pub open spec fn sent_by_all(waiting: Seq<Outgoing>, events: Seq<SenderEvent>) -> Seq<Outgoing>
    decreases events.len(),
{
    if events.len() == 0 {
        Seq::empty()
    } else {
        sent_by_all(waiting, events.drop_last()) + sent_by(
            waiting_after_all(waiting, events.drop_last()),
            events.last(),
        )
    }
}

/// Packets are sent in the order in which they were queued, each of them once, whatever
/// happens: those that were sent and those that are left are those that there were and those
/// that were queued.
pub proof fn law_sent_in_order(waiting: Seq<Outgoing>, events: Seq<SenderEvent>)
    ensures
        sent_by_all(waiting, events) + waiting_after_all(waiting, events) == waiting
            + queued_by_all(events),
    decreases events.len(),
{
    if events.len() == 0 {
        assert(Seq::<Outgoing>::empty() + waiting =~= waiting + Seq::<Outgoing>::empty());
    } else {
        let front = events.drop_last();
        let event = events.last();
        law_sent_in_order(waiting, front);
        let now = waiting_after_all(waiting, front);
        assert(sent_by(now, event) + waiting_after(now, event) =~= now + queued_by(event));
        assert(sent_by_all(waiting, events) + waiting_after_all(waiting, events) =~= sent_by_all(
            waiting,
            front,
        ) + (sent_by(now, event) + waiting_after(now, event)));
        assert(sent_by_all(waiting, front) + (now + queued_by(event)) =~= (sent_by_all(
            waiting,
            front,
        ) + now) + queued_by(event));
        assert((waiting + queued_by_all(front)) + queued_by(event) =~= waiting + queued_by_all(
            events,
        ));
    }
}

/// Whenever a packet waits, however many do, the oldest is sent: its bytes, to the address that
/// it was queued with. The task sleeps only where none waits.
pub proof fn law_oldest_is_sent(waiting: Seq<Outgoing>, action: SenderAction)
    requires
        sends_first(waiting, action),
    ensures
        match action {
            SenderAction::Send(bytes, remote_addr) => {
                &&& waiting.len() > 0
                &&& contents(bytes) == encode(waiting[0].0)
                &&& remote_addr == waiting[0].1
            },
            SenderAction::Sleep => waiting.len() == 0,
            _ => false,
        },
        waiting.len() > 0 ==> action is Send,
{
}

/// A packet that is queued waits after all others, and the oldest packet waits no more once it
/// is sent. Nothing else changes what waits.
pub proof fn law_waiting_after(waiting: Seq<Outgoing>, event: SenderEvent)
    ensures
        ({
            let after = waiting_after(waiting, event);
            match event {
                SenderEvent::Queued(packet, remote_addr) => {
                    &&& after.len() == waiting.len() + 1
                    &&& after.take(waiting.len() as int) == waiting
                    &&& after.last() == (packet@, remote_addr)
                },
                SenderEvent::Sent => {
                    &&& waiting.len() > 0 ==> after.len() == waiting.len() - 1
                    &&& waiting.len() == 0 ==> after.len() == 0
                    &&& forall|i: int|
                        0 <= i < after.len() ==> (#[trigger] after[i]) == waiting[i + 1]
                },
                _ => after == waiting,
            }
        }),
{
    if let SenderEvent::Queued(_, _) = event {
        assert(waiting_after(waiting, event).take(waiting.len() as int) =~= waiting);
    }
}

/// The packets that wait are those in the buffer, in its order.
pub proof fn law_waiting_view(sender: PacketSender)
    ensures
        sender.waiting().len() == sender.outgoing_buffer@.len(),
        forall|i: int|
            0 <= i < sender.waiting().len() ==> (#[trigger] sender.waiting()[i]) == (
                sender.outgoing_buffer@[i].0@,
                sender.outgoing_buffer@[i].1,
            ),
        sender.wf() <==> forall|i: int|
            0 <= i < sender.waiting().len() ==> encode((#[trigger] sender.waiting()[i]).0).len()
                <= isize::MAX / 4,
{
    if sender.wf() {
        assert forall|i: int| 0 <= i < sender.waiting().len() implies encode(
            (#[trigger] sender.waiting()[i]).0,
        ).len() <= isize::MAX / 4 by {
            assert(sender.waiting()[i].0 == sender.outgoing_buffer@[i].0@);
        }
    }
    if forall|i: int|
        0 <= i < sender.waiting().len() ==> encode((#[trigger] sender.waiting()[i]).0).len()
            <= isize::MAX / 4 {
        assert forall|i: int| 0 <= i < sender.outgoing_buffer@.len() implies encode(
            (#[trigger] sender.outgoing_buffer@[i]).0@,
        ).len() <= buffer_limit() by {
            assert(sender.waiting()[i].0 == sender.outgoing_buffer@[i].0@);
        }
    }
}

/// The events that queue some packets, and those that tell that so many were sent.
pub open spec fn queue_and_send(packets: Seq<(Packet, SocketAddr)>, sent: nat) -> Seq<SenderEvent> {
    Seq::new(packets.len(), |i: int| SenderEvent::Queued(packets[i].0, packets[i].1)) + Seq::new(
        sent,
        |i: int| SenderEvent::Sent,
    )
}

/// Queued packets leave one after the other: after some of them were sent, the next one is sent
/// to the address that it was queued with, and the task sleeps once all were sent.
pub proof fn law_queue_drains(
    packets: Seq<(Packet, SocketAddr)>,
    sent: nat,
    action: SenderAction,
)
    requires
        sent <= packets.len(),
        sends_first(waiting_after_all(Seq::empty(), queue_and_send(packets, sent)), action),
    ensures
        waiting_after_all(Seq::empty(), queue_and_send(packets, sent)).len() == packets.len()
            - sent,
        if sent < packets.len() {
            action matches SenderAction::Send(bytes, remote_addr) && contents(bytes) == encode(
                packets[sent as int].0@,
            ) && remote_addr == packets[sent as int].1
        } else {
            action is Sleep
        },
{
    lemma_queue_drains(packets, sent);
}

/// What waits after some packets were queued and some of them sent.
proof fn lemma_queue_drains(packets: Seq<(Packet, SocketAddr)>, sent: nat)
    requires
        sent <= packets.len(),
    ensures
        waiting_after_all(Seq::empty(), queue_and_send(packets, sent)) == Seq::new(
            (packets.len() - sent) as nat,
            |i: int| (packets[sent + i].0@, packets[sent + i].1),
        ),
    decreases packets.len() + sent,
{
    let events = queue_and_send(packets, sent);
    let expected = Seq::new(
        (packets.len() - sent) as nat,
        |i: int| (packets[sent + i].0@, packets[sent + i].1),
    );
    if sent > 0 {
        lemma_queue_drains(packets, (sent - 1) as nat);
        assert(events.drop_last() =~= queue_and_send(packets, (sent - 1) as nat));
        assert(waiting_after_all(Seq::empty(), events) =~= expected);
    } else if packets.len() > 0 {
        let front = packets.drop_last();
        lemma_queue_drains(front, 0);
        assert(events.drop_last() =~= queue_and_send(front, 0));
        assert(waiting_after_all(Seq::empty(), events) =~= expected);
    } else {
        assert(waiting_after_all(Seq::empty(), events) =~= expected);
    }
}

} // verus!
