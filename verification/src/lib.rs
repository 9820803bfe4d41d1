//! A row-partitioned Bloom filter in two variants: a binary, bit-per-slot
//! filter and a counting, byte-counter-per-slot filter. Both derive all of
//! their addressing from one cryptographic-permutation digest per key, sliced
//! into a row selector and `k` sub-hash slot indices.

pub mod bloom;
pub mod bloom_counter;
pub mod hashing;
pub mod indexing;
pub mod rows;
