//! Random tags that tell apart the blocks that different hives create.
use std::collections::hash_map::RandomState;
use vstd::prelude::*;

verus! {

/// Calls `RandomState::new`, which seeds hasher keys from the process's
/// random source. Nothing is claimed of the keys.
#[verifier::external_body]
fn new_random_state() -> RandomState {
    RandomState::new()
}

/// Calls `BuildHasher::hash_one` on `state` with the byte zero. The result
/// depends on the state's random keys, so nothing is claimed of it.
#[verifier::external_body]
fn hash_zero(state: &RandomState) -> u64 {
    std::hash::BuildHasher::hash_one(state, 0u8)
}

/// A random tag for the blocks of a new hive.
pub(crate) fn fresh_tag() -> u64 {
    let state = new_random_state();
    hash_zero(&state)
}

} // verus!
