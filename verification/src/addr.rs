//! Addresses of UDP sockets.

use vstd::prelude::*;

verus! {

/// The address of a UDP socket: an IP address and a port.
#[allow(inconsistent_fields)]
#[derive(Debug, Clone, Copy, PartialEq, Eq, Structural, Hash)]
pub enum SocketAddr {
    /// An IPv4 address, its four octets read as one big-endian integer.
    V4 { ip: u32, port: u16 },
    /// An IPv6 address, its sixteen octets read as one big-endian integer.
    V6 { ip: u128, port: u16, flowinfo: u32, scope_id: u32 },
}

/// An address spelt as a tuple of integers: version, IP address, port, flow information and
/// scope.
pub type AddrKey = (u8, u128, u16, u32, u32);

/// The tuple of integers that stands for an address.
pub open spec fn addr_key(addr: SocketAddr) -> AddrKey {
    match addr {
        SocketAddr::V4 { ip, port } => (4u8, ip as u128, port, 0u32, 0u32),
        SocketAddr::V6 { ip, port, flowinfo, scope_id } => (6u8, ip, port, flowinfo, scope_id),
    }
}

impl SocketAddr {
    /// The tuple of integers that stands for this address in a table.
    pub fn key(&self) -> (key: AddrKey)
        ensures
            key == addr_key(*self),
    {
        match *self {
            SocketAddr::V4 { ip, port } => (4u8, ip as u128, port, 0u32, 0u32),
            SocketAddr::V6 { ip, port, flowinfo, scope_id } => (6u8, ip, port, flowinfo, scope_id),
        }
    }
}

/// No two addresses share a key.
pub proof fn law_addr_key_injective(a: SocketAddr, b: SocketAddr)
    requires
        addr_key(a) == addr_key(b),
    ensures
        a == b,
{
}

} // verus!
