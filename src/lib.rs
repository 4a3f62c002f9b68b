//! A sparse Merkle tree over a fixed-depth binary index space, keyed by
//! 32-byte field-element encodings, with a content-addressed node store.
pub mod digest;
pub mod store;
pub mod tree;
pub mod laws;
pub mod circuit;
