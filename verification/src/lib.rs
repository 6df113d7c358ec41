//! A binary hash tree (Merkle tree) over an ordered sequence of byte blocks.
//!
//! Building a tree summarizes the whole sequence in one fixed-size root
//! digest; an inclusion proof lets a verifier that holds only one block, a
//! short sibling path, and the claimed root digest check that the block was
//! part of the sequence, without seeing the rest of it.

pub mod hash;
pub mod hexstr;
pub mod inclusion;
pub mod laws;
pub mod tree;

pub use hash::digest_of;
pub use hash::digest_of_pair;
pub use hexstr::digest_from_hex;
pub use hexstr::digest_to_hex;
pub use inclusion::verify;
pub use inclusion::InclusionProof;
pub use inclusion::ProofEntry;
pub use inclusion::Side;
pub use tree::MerkleError;
pub use tree::MerkleTree;
