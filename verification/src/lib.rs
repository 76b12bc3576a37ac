//! Client-side logic of a privacy pool over the BN254 scalar field: field
//! elements and their text encodings, Poseidon commitments, and a lean
//! incremental Merkle tree that produces withdraw witnesses.

pub mod encoding;
pub mod field;
pub mod poseidon;
pub mod merkle_spec;
pub mod merkle;
pub mod coin;
pub mod registry;
