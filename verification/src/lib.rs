//! Merkle hash-tree engine: build a binary hash tree over an ordered
//! sequence of byte blobs, compute its root digest, generate a compact
//! inclusion proof for any leaf index, and verify a blob against a
//! previously recorded root using that proof.

pub mod hashing;
pub mod laws;
pub mod protocol;
pub mod tree;

pub use hashing::blake2s_of;
pub use protocol::fetch_with_proof;
pub use protocol::verify_inclusion;
pub use tree::MerkleTree;
pub use tree::Order;
