//! Fresh random values for the random payload.
use vstd::prelude::*;

verus! {

/// Relies on rand::random (the thread-local generator, uniform over `u128`):
/// nothing is known of the value drawn.
#[verifier::external_body]
pub(crate) fn random_u128() -> (r: u128) {
    rand::random::<u128>()
}

} // verus!
