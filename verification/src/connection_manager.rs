//! States of connections, by connection ID.

use crate::table;
use crate::table::states_in;
use dashmap::DashMap;
use vstd::prelude::*;

verus! {

/// The states of the connections, and the channel for packets that ask for one. Each state and
/// each channel is known by a number.
pub struct ConnectionManager {
    connection_states: DashMap<u16, u64>,
    syn_packet_tx: u64,
}

impl ConnectionManager {
    /// The states, by connection ID.
    pub closed spec fn states(&self) -> Map<u16, u64> {
        states_in(self.connection_states)
    }

    /// The channel for packets that ask for a connection.
    pub closed spec fn syn_channel(&self) -> u64 {
        self.syn_packet_tx
    }

    /// A manager of connections in the given states.
    pub fn new(connection_states: DashMap<u16, u64>, syn_packet_tx: u64) -> (r: Self)
        ensures
            r.states() == states_in(connection_states),
            r.syn_channel() == syn_packet_tx,
    {
        Self { connection_states, syn_packet_tx }
    }

    /// The state of the connection with this ID, if there is one.
    pub fn get_state(&self, id: u16) -> (r: Option<u64>)
        ensures
            match r {
                Some(state) => self.states().contains_key(id) && self.states()[id] == state,
                None => !self.states().contains_key(id),
            },
    {
        table::get_state(&self.connection_states, id)
    }

    /// Sets the state of the connection with this ID, unless it has one.
    pub fn set_state(&mut self, id: u16, state: u64) -> (success: bool)
        ensures
            success == !old(self).states().contains_key(id),
            final(self).syn_channel() == old(self).syn_channel(),
            final(self).states() == if success {
                old(self).states().insert(id, state)
            } else {
                old(self).states()
            },
    {
        if table::has_state(&self.connection_states, id) {
            false
        } else {
            let _ = table::insert_state(&mut self.connection_states, id, state);
            true
        }
    }
}

} // verus!
