//! Packets that are routed by their connection ID alone.

use crate::addr::SocketAddr;
use crate::error::ConnectionError;
use crate::packet::{Packet, PacketType};
use std::collections::HashMap;
use vstd::prelude::*;

verus! {

broadcast use vstd::std_specs::hash::group_hash_axioms;

/// The channels of the connections, and the channel for packets that ask for one. Each channel
/// is known by a number.
pub struct Router {
    pub connection_states: HashMap<u16, u64>,
    pub syn_packet_tx: Option<u64>,
}

/// The channel that a packet goes to, if there is one: that of the connection with its ID, and
/// where there is none, the one for packets that ask for a connection.
pub open spec fn channel_for(
    states: Map<u16, u64>,
    syn_packet_tx: Option<u64>,
    packet_type: PacketType,
    connection_id: u16,
) -> Option<u64> {
    if states.contains_key(connection_id) {
        Some(states[connection_id])
    } else if packet_type == PacketType::Syn {
        syn_packet_tx
    } else {
        None
    }
}

/// Whether an ID is the lowest that is free.
pub open spec fn lowest_free(states: Map<u16, u64>, id: u16) -> bool {
    &&& !states.contains_key(id)
    &&& forall|lower: u16| lower < id ==> #[trigger] states.contains_key(lower)
}

impl Router {
    /// A router with the given channels.
    pub fn new(connection_states: HashMap<u16, u64>, syn_packet_tx: Option<u64>) -> (r: Self)
        ensures
            r.connection_states == connection_states,
            r.syn_packet_tx == syn_packet_tx,
    {
        Self { connection_states, syn_packet_tx }
    }

    /// Gives a channel the lowest connection ID that is free.
    pub fn register_channel(&mut self, state: u64) -> (r: Result<u16, ConnectionError>)
        ensures
            final(self).syn_packet_tx == old(self).syn_packet_tx,
            match r {
                Ok(id) => {
                    &&& lowest_free(old(self).connection_states@, id)
                    &&& final(self).connection_states@ == old(self).connection_states@.insert(
                        id,
                        state,
                    )
                },
                Err(error) => {
                    &&& error == ConnectionError::TooMany
                    &&& forall|id: u16| #[trigger] old(self).connection_states@.contains_key(id)
                    &&& final(self).connection_states@ == old(self).connection_states@
                },
            },
    {
        let mut connection_id: u16 = 0;
        while self.connection_states.contains_key(&connection_id)
            invariant
                *self == *old(self),
                forall|lower: u16|
                    lower < connection_id ==> #[trigger] self.connection_states@.contains_key(
                        lower,
                    ),
            decreases u16::MAX - connection_id,
        {
            match connection_id.checked_add(1) {
                Some(next) => {
                    connection_id = next;
                },
                None => {
                    return Err(ConnectionError::TooMany);
                },
            }
        }
        let _ = self.connection_states.insert(connection_id, state);
        Ok(connection_id)
    }

    /// Gives a channel the given connection ID, unless another has it.
    pub fn set_channel(&mut self, id: u16, state: u64) -> (success: bool)
        ensures
            success == !old(self).connection_states@.contains_key(id),
            final(self).syn_packet_tx == old(self).syn_packet_tx,
            final(self).connection_states@ == if success {
                old(self).connection_states@.insert(id, state)
            } else {
                old(self).connection_states@
            },
    {
        if self.connection_states.contains_key(&id) {
            false
        } else {
            let _ = self.connection_states.insert(id, state);
            true
        }
    }

    /// The channel that a packet goes to, and what to send there. Where there is none, the
    /// packet is dropped.
    pub fn route(&self, packet: Packet, addr: SocketAddr) -> (r: Option<(u64, Packet, SocketAddr)>)
        ensures
            r == match channel_for(
                self.connection_states@,
                self.syn_packet_tx,
                packet.packet_type,
                packet.connection_id,
            ) {
                Some(channel) => Some((channel, packet, addr)),
                None => None,
            },
    {
        match self.connection_states.get(&packet.connection_id) {
            Some(channel) => Some((*channel, packet, addr)),
            None => match (packet.packet_type, self.syn_packet_tx) {
                (PacketType::Syn, Some(channel)) => Some((channel, packet, addr)),
                _ => None,
            },
        }
    }
}

/// A packet is routed to the channel that was registered for its connection.
pub proof fn law_registered_is_routed(
    states: Map<u16, u64>,
    syn_packet_tx: Option<u64>,
    id: u16,
    state: u64,
    packet_type: PacketType,
)
    ensures
        channel_for(states.insert(id, state), syn_packet_tx, packet_type, id) == Some(state),
        forall|other: u16|
            other != id ==> #[trigger] channel_for(
                states.insert(id, state),
                syn_packet_tx,
                packet_type,
                other,
            ) == channel_for(states, syn_packet_tx, packet_type, other),
{
}

/// A packet goes to the channel of the connection with its ID, whatever its type is. Where there
/// is none, a SYN packet goes to the channel for those, and any other packet is dropped.
pub proof fn law_channel_for(
    states: Map<u16, u64>,
    syn_packet_tx: Option<u64>,
    packet_type: PacketType,
    connection_id: u16,
)
    ensures
        ({
            let r = channel_for(states, syn_packet_tx, packet_type, connection_id);
            &&& states.contains_key(connection_id) ==> r == Some(states[connection_id])
            &&& !states.contains_key(connection_id) && packet_type == PacketType::Syn ==> r
                == syn_packet_tx
            &&& !states.contains_key(connection_id) && packet_type != PacketType::Syn ==> r is None
        }),
{
}

/// The lowest ID that is free is free, and no lower one is. There is no more than one such ID.
pub proof fn law_lowest_free(states: Map<u16, u64>, id: u16, other: u16)
    requires
        lowest_free(states, id),
    ensures
        !states.contains_key(id),
        other < id ==> states.contains_key(other),
        lowest_free(states, other) ==> other == id,
{
    if lowest_free(states, other) && other > id {
        assert(states.contains_key(id));
    }
}

} // verus!
