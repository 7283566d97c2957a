//! The time that packets are stamped with.

use std::time::UNIX_EPOCH;
use vstd::prelude::*;

verus! {

/// `SystemTime::elapsed` on the UNIX epoch, in whole microseconds, and `None` where the system
/// clock reads a time before the epoch. The result depends on the clock, so nothing is claimed
/// of it.
#[verifier::external_body]
fn micros_since_epoch() -> (micros: Option<u128>) {
    UNIX_EPOCH.elapsed().ok().map(|elapsed| elapsed.as_micros())
}

/// The last 32 bits of a number of microseconds.
///
/// No more are needed: `u32::MAX` microseconds are about 72 minutes, which is plenty of time
/// to measure the delays of packets.
pub fn last_32_bits(total_microseconds: u128) -> (micros: u32)
    ensures
        micros == total_microseconds % 0x1_0000_0000,
{
    let masked: u128 = total_microseconds & (u32::MAX as u128);
    assert(total_microseconds & 0xffff_ffffu128 == total_microseconds % 0x1_0000_0000u128)
        by (bit_vector);
    masked as u32
}

/// The last 32 bits of the current UNIX timestamp in microseconds, and `None` where the system
/// clock reads a time before the epoch.
pub fn current_micros() -> (micros: Option<u32>) {
    timestamp(micros_since_epoch())
}

/// The last 32 bits of the number of microseconds since the UNIX epoch, and `None` where the
/// system clock reads a time before the epoch.
pub fn timestamp(since_epoch: Option<u128>) -> (micros: Option<u32>)
    ensures
        match since_epoch {
            Some(total_microseconds) => micros == Some(
                (total_microseconds % 0x1_0000_0000) as u32,
            ),
            None => micros is None,
        },
{
    match since_epoch {
        Some(total_microseconds) => Some(last_32_bits(total_microseconds)),
        None => None,
    }
}

} // verus!
