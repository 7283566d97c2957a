//! A connection that shares a socket with others: whichever connection reads a packet from the
//! socket sees to it that the packet gets to where it belongs.
//!
//! Reading, writing and routing take time, and are left to the caller. [`Connection::poll_next`]
//! says what to do next, and is told what came of it.

use crate::addr::SocketAddr;
use crate::error::ConnectionError;
use crate::packet::Packet;
use crate::router::{lowest_free, Router};
use vstd::prelude::*;

verus! {

/// A connection, and what it waits for.
pub struct Connection {
    pub connection_id: u16,
    pub remote_addr: SocketAddr,
    pub read_pending: bool,
    pub write_pending: bool,
    pub route_pending: bool,
}

/// What happened to a connection.
pub enum ConnectionEvent {
    /// Someone asks for the next message.
    Polled,
    /// The packet that is being routed was polled, and may be done.
    RoutePolled { done: bool },
    /// The write was polled, and may be done.
    WritePolled { done: bool },
    /// The read was polled, and is not done.
    ReadPending,
    /// The read failed.
    ReadFailed,
    /// A packet was read from the socket.
    ReadDone(Packet, SocketAddr),
    /// Another connection passed on a packet.
    Received(Packet, SocketAddr),
    /// No other connection passed on a packet.
    NothingReceived,
    /// A packet began to be routed, was polled, and may be done.
    RouteStarted { done: bool },
}

/// What to do for a connection.
pub enum ConnectionAction {
    /// Poll the packet that is being routed.
    PollRoute,
    /// Poll the write.
    PollWrite,
    /// Poll the read.
    PollRead,
    /// See whether another connection passed on a packet.
    TryReceive,
    /// Begin to read from the socket, and poll that.
    StartRead,
    /// Begin to route a packet that belongs to another connection, and poll that.
    StartRoute(Packet, SocketAddr),
    /// Answer that there is a message.
    Message,
    /// Answer that reading failed.
    Error,
    /// Wait to be polled again.
    Sleep,
}

impl Connection {
    /// Whether the connection waits for one thing at most.
    pub open spec fn wf(&self) -> bool {
        &&& self.route_pending ==> !self.read_pending && !self.write_pending
        &&& self.write_pending ==> !self.read_pending
    }

    /// Whether the connection waits for nothing.
    pub open spec fn idle(&self) -> bool {
        !self.read_pending && !self.write_pending && !self.route_pending
    }

    /// Whether an event can happen to the connection now.
    pub open spec fn expects(&self, event: ConnectionEvent) -> bool {
        match event {
            ConnectionEvent::Polled => true,
            ConnectionEvent::RoutePolled { .. } => self.route_pending,
            ConnectionEvent::RouteStarted { .. } => self.route_pending,
            ConnectionEvent::WritePolled { .. } => self.write_pending,
            ConnectionEvent::ReadPending => self.read_pending,
            ConnectionEvent::ReadFailed => self.read_pending,
            ConnectionEvent::ReadDone(..) => self.read_pending,
            ConnectionEvent::Received(..) => self.idle(),
            ConnectionEvent::NothingReceived => self.idle(),
        }
    }

    /// What has to be done before the next message can be looked for.
    pub open spec fn first_action(&self) -> ConnectionAction {
        if self.route_pending {
            ConnectionAction::PollRoute
        } else if self.write_pending {
            ConnectionAction::PollWrite
        } else if self.read_pending {
            ConnectionAction::PollRead
        } else {
            ConnectionAction::TryReceive
        }
    }

    /// The connection after an event, and what to do then.
    pub open spec fn after(self, event: ConnectionEvent) -> (Connection, ConnectionAction) {
        match event {
            ConnectionEvent::Polled => (self, self.first_action()),
            ConnectionEvent::RoutePolled { done } => if done {
                (Connection { route_pending: false, ..self }, ConnectionAction::TryReceive)
            } else {
                (self, ConnectionAction::Sleep)
            },
            ConnectionEvent::WritePolled { done } => if done {
                (Connection { write_pending: false, ..self }, ConnectionAction::TryReceive)
            } else {
                (self, ConnectionAction::Sleep)
            },
            ConnectionEvent::ReadPending => (self, ConnectionAction::Sleep),
            ConnectionEvent::ReadFailed => (
                Connection { read_pending: false, ..self },
                ConnectionAction::Error,
            ),
            ConnectionEvent::ReadDone(packet, addr) => Connection {
                read_pending: false,
                ..self
            }.with_packet(packet, addr),
            ConnectionEvent::Received(packet, addr) => self.with_packet(packet, addr),
            ConnectionEvent::NothingReceived => (
                Connection { read_pending: true, ..self },
                ConnectionAction::StartRead,
            ),
            ConnectionEvent::RouteStarted { done } => (
                Connection { route_pending: !done, ..self },
                ConnectionAction::Sleep,
            ),
        }
    }

    /// The connection after it got a packet, and what to do then. A packet with another
    /// connection ID is passed on.
    pub open spec fn with_packet(self, packet: Packet, addr: SocketAddr) -> (
        Connection,
        ConnectionAction,
    ) {
        if packet.connection_id != self.connection_id {
            (
                Connection { route_pending: true, ..self },
                ConnectionAction::StartRoute(packet, addr),
            )
        } else {
            (self, ConnectionAction::Message)
        }
    }

    /// A connection that waits for the given things.
    pub fn new(
        connection_id: u16,
        remote_addr: SocketAddr,
        read_pending: bool,
        write_pending: bool,
        route_pending: bool,
    ) -> (r: Self)
        ensures
            r == (Connection {
                connection_id,
                remote_addr,
                read_pending,
                write_pending,
                route_pending,
            }),
    {
        Self { connection_id, remote_addr, read_pending, write_pending, route_pending }
    }

    /// The connection ID.
    pub fn connection_id(&self) -> (r: u16)
        ensures
            r == self.connection_id,
    {
        self.connection_id
    }

    /// A connection to the given address under the lowest ID that is free. Its packets go to the
    /// given channel.
    pub fn generate(router: &mut Router, packet_tx: u64, remote_addr: SocketAddr) -> (r: Result<
        Self,
        ConnectionError,
    >)
        ensures
            final(router).syn_packet_tx == old(router).syn_packet_tx,
            match r {
                Ok(connection) => {
                    &&& connection.idle()
                    &&& connection.remote_addr == remote_addr
                    &&& lowest_free(old(router).connection_states@, connection.connection_id)
                    &&& final(router).connection_states@ == old(router).connection_states@.insert(
                        connection.connection_id,
                        packet_tx,
                    )
                },
                Err(error) => {
                    &&& error == ConnectionError::TooMany
                    &&& forall|id: u16| #[trigger] old(router).connection_states@.contains_key(id)
                    &&& final(router).connection_states@ == old(router).connection_states@
                },
            },
    {
        match router.register_channel(packet_tx) {
            Ok(connection_id) => Ok(Self::new(connection_id, remote_addr, false, false, false)),
            Err(error) => Err(error),
        }
    }

    /// Takes note of an event, and says what to do. There is no answer while the connection
    /// holds a packet that belongs to another: if nobody asked again, it would get lost.
    pub fn poll_next(&mut self, event: ConnectionEvent) -> (action: ConnectionAction)
        requires
            old(self).wf(),
            old(self).expects(event),
        ensures
            final(self).wf(),
            (*final(self), action) == old(self).after(event),
            action is Message || action is Error ==> final(self).idle(),
            action is TryReceive ==> final(self).idle(),
    {
        match event {
            ConnectionEvent::Polled => {
                if self.route_pending {
                    ConnectionAction::PollRoute
                } else if self.write_pending {
                    ConnectionAction::PollWrite
                } else if self.read_pending {
                    ConnectionAction::PollRead
                } else {
                    ConnectionAction::TryReceive
                }
            },
            ConnectionEvent::RoutePolled { done } => {
                if done {
                    self.route_pending = false;
                    ConnectionAction::TryReceive
                } else {
                    ConnectionAction::Sleep
                }
            },
            ConnectionEvent::WritePolled { done } => {
                if done {
                    self.write_pending = false;
                    ConnectionAction::TryReceive
                } else {
                    ConnectionAction::Sleep
                }
            },
            ConnectionEvent::ReadPending => ConnectionAction::Sleep,
            ConnectionEvent::ReadFailed => {
                self.read_pending = false;
                ConnectionAction::Error
            },
            ConnectionEvent::ReadDone(packet, addr) => {
                self.read_pending = false;
                self.process(packet, addr)
            },
            ConnectionEvent::Received(packet, addr) => self.process(packet, addr),
            ConnectionEvent::NothingReceived => {
                self.read_pending = true;
                ConnectionAction::StartRead
            },
            ConnectionEvent::RouteStarted { done } => {
                self.route_pending = !done;
                ConnectionAction::Sleep
            },
        }
    }

    /// Passes on a packet that belongs to another connection, or answers that there is one.
    fn process(&mut self, packet: Packet, addr: SocketAddr) -> (action: ConnectionAction)
        ensures
            (*final(self), action) == old(self).with_packet(packet, addr),
    {
        if packet.connection_id != self.connection_id {
            // This packet is not meant for this connection.
            self.route_pending = true;
            ConnectionAction::StartRoute(packet, addr)
        } else {
            ConnectionAction::Message
        }
    }
}

/// A packet with the ID of the connection is a message. Any other is passed on as it is, and the
/// connection waits for that. A packet is never dropped, whichever way it came.
pub proof fn law_packet_is_kept(c: Connection, packet: Packet, addr: SocketAddr)
    ensures
        ({
            let (received, action) = c.after(ConnectionEvent::Received(packet, addr));
            let (read, read_action) = c.after(ConnectionEvent::ReadDone(packet, addr));
            &&& !read.read_pending
            &&& received.read_pending == c.read_pending
            &&& packet.connection_id == c.connection_id ==> {
                &&& action is Message && read_action is Message
                &&& received.route_pending == c.route_pending
                &&& read.route_pending == c.route_pending
            }
            &&& packet.connection_id != c.connection_id ==> {
                &&& action == ConnectionAction::StartRoute(packet, addr)
                &&& read_action == ConnectionAction::StartRoute(packet, addr)
                &&& received.route_pending && read.route_pending
            }
        }),
{
}

/// Whoever asks for a message makes the connection look at what it waits for first: a packet that
/// is being routed, a write, a read, in this order. Where it waits for nothing, it looks for a
/// packet that was passed on.
pub proof fn law_polled(c: Connection)
    ensures
        ({
            let (after, action) = c.after(ConnectionEvent::Polled);
            &&& after == c
            &&& action is PollRoute <==> c.route_pending
            &&& action is PollWrite <==> !c.route_pending && c.write_pending
            &&& action is PollRead <==> !c.route_pending && !c.write_pending && c.read_pending
            &&& action is TryReceive <==> !c.route_pending && !c.write_pending && !c.read_pending
        }),
{
}

/// What is done is not waited for any more, and a packet is looked for. What is not done is still
/// waited for, and the connection sleeps.
pub proof fn law_waits(c: Connection, done: bool)
    ensures
        ({
            let (routed, route_action) = c.after(ConnectionEvent::RoutePolled { done });
            let (written, write_action) = c.after(ConnectionEvent::WritePolled { done });
            let (started, start_action) = c.after(ConnectionEvent::RouteStarted { done });
            let (reading, read_action) = c.after(ConnectionEvent::ReadPending);
            &&& done ==> !routed.route_pending && route_action is TryReceive
            &&& !done ==> routed == c && route_action is Sleep
            &&& done ==> !written.write_pending && write_action is TryReceive
            &&& !done ==> written == c && write_action is Sleep
            &&& started.route_pending == !done && start_action is Sleep
            &&& reading == c && read_action is Sleep
        }),
{
}

/// Where no packet was passed on, one is read. A read that fails is over, and its error is told.
pub proof fn law_reads(c: Connection)
    ensures
        ({
            let (started, action) = c.after(ConnectionEvent::NothingReceived);
            let (failed, fail_action) = c.after(ConnectionEvent::ReadFailed);
            &&& started.read_pending && action is StartRead
            &&& !failed.read_pending && fail_action is Error
        }),
{
}

/// No event changes the ID of a connection or the address of its peer, and each changes no more
/// than what it is about.
pub proof fn law_identity_is_kept(c: Connection, event: ConnectionEvent)
    ensures
        ({
            let after = c.after(event).0;
            &&& after.connection_id == c.connection_id
            &&& after.remote_addr == c.remote_addr
            &&& after.write_pending != c.write_pending ==> event is WritePolled
            &&& after.read_pending != c.read_pending ==> event is ReadFailed || event is ReadDone
                || event is NothingReceived
            &&& after.route_pending != c.route_pending ==> event is RoutePolled
                || event is RouteStarted || event is ReadDone || event is Received
        }),
{
}

/// A connection is in good order where it waits for one thing at most. It can be polled at any
/// time, is told only of what it waits for, and gets packets only while it waits for nothing.
pub proof fn law_expects(c: Connection, event: ConnectionEvent)
    ensures
        c.wf() <==> !(c.route_pending && c.write_pending) && !(c.route_pending && c.read_pending)
            && !(c.write_pending && c.read_pending),
        c.idle() <==> !c.route_pending && !c.write_pending && !c.read_pending,
        c.expects(event) <==> match event {
            ConnectionEvent::Polled => true,
            ConnectionEvent::RoutePolled { .. } => c.route_pending,
            ConnectionEvent::RouteStarted { .. } => c.route_pending,
            ConnectionEvent::WritePolled { .. } => c.write_pending,
            ConnectionEvent::ReadPending => c.read_pending,
            ConnectionEvent::ReadFailed => c.read_pending,
            ConnectionEvent::ReadDone(..) => c.read_pending,
            ConnectionEvent::Received(..) => c.idle(),
            ConnectionEvent::NothingReceived => c.idle(),
        },
{
}

} // verus!
