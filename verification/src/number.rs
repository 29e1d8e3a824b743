//! Numbers to tell ledgers apart by, where nobody counts them.

use std::hash::{BuildHasher, RandomState};

use vstd::prelude::*;

verus! {

/// `RandomState::new`: keys for a hasher, drawn at random. Which keys is not claimed.
pub assume_specification[ RandomState::new ]() -> (r: RandomState);

/// `BuildHasher::hash_one`, of a value that is always the same: a number that the drawn
/// keys decide. Two draws are unlikely to agree, which is not a thing to be claimed here.
#[verifier::external_body]
fn number_of(keys: &RandomState) -> u64 {
    keys.hash_one(0u64)
}

/// A number that no other draw is likely to give.
pub(crate) fn draw() -> u64 {
    number_of(&RandomState::new())
}

} // verus!
