//! Basic building blocks for hash-based commitments: SHA-256 digests, a binary
//! Merkle tree with inclusion proofs, and a few small utilities.

pub mod binding_laws;
pub mod digest;
pub mod euclid;
pub mod merkle_path;
pub mod merkle_tree;
pub mod note;
pub mod power_of_two;
pub mod secret;
pub mod text;
pub mod tree_laws;
pub mod tree_lemmas;
pub mod tree_model;
