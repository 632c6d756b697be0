//! Random numbers from the operating system's thread-local generator.

use vstd::prelude::*;

verus! {

/// Relies on rand::random: a value drawn uniformly from the thread-local
/// generator. Nothing is known of the value.
#[verifier::external_body]
pub(crate) fn random_u64() -> u64 {
    rand::random::<u64>()
}

} // verus!
