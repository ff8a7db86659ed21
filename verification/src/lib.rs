//! A schema-versioned migration engine for a column-family key-value store.
//!
//! The store keeps raw byte records in named columns together with a single
//! schema-version slot. A migration step reads committed records from source
//! columns, folds them into derived aggregates (sets of hashes, reference
//! counts), and stages the results into one atomic write batch. The driver
//! orders steps by their target version and commits each step's writes
//! together with the version bump, so a crash can never leave the version
//! ahead of or behind the data.

use vstd::prelude::*;

pub mod codec;
pub mod fees;
pub mod kv;
pub mod migrations;

verus! {

/// Identifier derived from a record: the model of a fixed-size cryptographic
/// hash, reduced to the one thing the engine reads from it (equality).
pub type CryptoHash = u64;

/// The failures the engine can surface; none is recovered internally.
#[derive(Clone, Copy, PartialEq, Eq, Structural, Debug)]
pub enum StoreError {
    /// The store could not be opened.
    Open,
    /// A stored record does not match its expected binary shape.
    Decode,
    /// An in-memory aggregate could not be serialized.
    Encode,
    /// The atomic batch write failed at the storage layer.
    Commit,
}

} // verus!
