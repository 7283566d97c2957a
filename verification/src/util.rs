//! Addresses that names stand for.

use crate::addr::SocketAddr;
use crate::error::ConnectionError;
use vstd::prelude::*;

verus! {

/// The address to use of those that a name stands for: the first, if there is any.
pub fn resolve(addresses: &[SocketAddr]) -> (r: Result<SocketAddr, ConnectionError>)
    ensures
        r == if addresses@.len() > 0 {
            Ok(addresses@[0])
        } else {
            Err(ConnectionError::NoAddress)
        },
{
    if addresses.len() > 0 {
        Ok(addresses[0])
    } else {
        Err(ConnectionError::NoAddress)
    }
}

} // verus!
