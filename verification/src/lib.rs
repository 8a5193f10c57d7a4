//! A binary Merkle hash tree over an ordered list of byte-string leaves.
//!
//! The tree is stored as a flat array of digests, leaf level first, each
//! higher level following in order, with the root as the last element. A
//! leaf count that is not a power of two is padded with the digest of empty
//! input, so every node of the structure is a genuine hash output. The crate
//! builds such trees, generates compact inclusion proofs for single leaves,
//! and verifies a proof against a root digest alone, without the tree.

pub mod hashing;
pub mod model;
pub mod tree;
pub mod inclusion;



