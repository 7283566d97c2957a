//! Random numbers.

use vstd::prelude::*;

verus! {

/// `rand::random::<u16>`: any 16 bit integer. The result depends on chance, so nothing is
/// claimed of it.
#[verifier::external_body]
pub(crate) fn random_u16() -> (n: u16) {
    rand::random::<u16>()
}

} // verus!
