//! The container's single source of randomness: one fresh weight per node.

use vstd::prelude::*;

verus! {

/// Relies on rand::random::<u32>: a uniformly random draw from the thread's
/// generator. Nothing is promised of the value; every contract of this
/// library holds whatever weight comes back.
#[verifier::external_body]
pub(crate) fn fresh_weight() -> u32 {
    rand::random()
}

} // verus!
