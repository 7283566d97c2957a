//! The errors of the library.

use crate::addr::SocketAddr;
use vstd::prelude::*;

verus! {

/// Why a connection could not be made.
#[derive(Debug, Clone, Copy, PartialEq, Eq, Structural)]
pub enum ConnectionError {
    /// No socket address was provided.
    NoAddress,
    /// Every connection ID is taken.
    TooMany,
    /// There is a connection with this ID to this address already.
    AlreadyExists(u16, SocketAddr),
}

/// Why a datagram is no packet.
#[derive(Debug, Clone, Copy, PartialEq, Eq, Structural)]
pub enum PacketParseError {
    /// The datagram is shorter than a packet header.
    TooSmall,
    /// The packet has another version of the protocol.
    UnsupportedVersion(u8),
    /// The packet has a type that does not exist.
    InvalidPacketType(u8),
    /// The extension with this index was announced, and the datagram ends before it.
    MissingExtension(usize),
    /// The extension with this index is longer than what is left of the datagram.
    IncompleteExtension { index: usize, length: usize, remaining: usize },
}

} // verus!
