//! Merkle trees over 32-byte hashes: the root of a list of leaf hashes,
//! inclusion witnesses for a leaf, and the check of a witness against a root.

pub mod hash;
pub mod merkle;
pub mod model;

pub use merkle::{calc_merkle_root, create_merkle_witness, verify_merkle_witness, LeafRoute, WitnessSegment};
