//! Deterministic mapping from string keys to hash partitions.
//!
//! A key is normalised, fingerprinted with a 32-bit mixing hash, reduced to a
//! position in a 16-bit logical keyspace, and looked up in a table of
//! inclusive range bounds that splits the keyspace into near-equal ranges.

pub mod error;
pub mod locator;
pub mod mix_hash;
pub mod range_table;
