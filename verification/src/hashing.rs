//! Trusted interface to std's seeded hashers.
//!
//! vstd models a `DefaultHasher` by the sequence of byte chunks written into
//! it, with `DefaultHasher::spec_finish` naming the 64-bit digest of such a
//! sequence. The two items here cover what vstd leaves open: drawing a
//! randomly seeded hasher, and duplicating a hasher's state.
use std::collections::hash_map::DefaultHasher;
use std::collections::hash_map::RandomState;
use std::hash::BuildHasher;
use vstd::prelude::*;

verus! {

/// Relies on std's `RandomState::new`: a hash-builder with freshly drawn
/// random keys. Nothing is promised of the result: it is random.
#[verifier::external_body]
fn fresh_random_state() -> RandomState {
    RandomState::new()
}

/// Relies on std's `BuildHasher::build_hasher` for `RandomState`: a
/// `DefaultHasher` seeded with the builder's keys. Nothing is promised of the
/// resulting hasher's abstract state: it is determined by the random keys.
#[verifier::external_body]
fn build_seeded_hasher(state: &RandomState) -> DefaultHasher {
    state.build_hasher()
}

/// A `DefaultHasher` seeded with freshly drawn random keys. Two calls may
/// (and almost always do) return hashers with different abstract states.
pub(crate) fn random_seeded_hasher() -> DefaultHasher {
    build_seeded_hasher(&fresh_random_state())
}

/// Relies on std's `DefaultHasher` implementing `Clone` (a field-for-field
/// duplicate of the value): the copy carries the same seed and the same write
/// history as the original, so it has the same abstract state and hashes
/// exactly as the original would.
#[verifier::external_body]
pub(crate) fn clone_hasher(h: &DefaultHasher) -> (copy: DefaultHasher)
    ensures
        copy@ == h@,
{
    h.clone()
}

} // verus!
