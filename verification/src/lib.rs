//! A Bloom filter: a compact probabilistic set-membership structure.
//!
//! Given an expected element count and a target false-positive rate, the
//! filter allocates a fixed bit array and derives, for every item, a fixed
//! set of bit positions from two independently seeded hash functions.
//! Insertion sets those bits; lookup tests them all. The filter never
//! reports a false negative; false positives occur at a bounded rate.
pub mod bits;
pub mod filter;
pub mod hashing;
pub mod sizing;

pub use filter::BloomFilter;

