//! Multi-leaf inclusion proofs over a positional binary hash tree whose
//! leaf count need not be a power of two.

pub mod agree;
pub mod balanced;
pub mod hash;
pub mod height;
pub mod laws;
pub mod tree;
pub mod verify;

pub use balanced::calculate_balanced_root;
pub use hash::{digest_eq, Digest};
pub use height::tree_height;
pub use tree::{MerkleError, Node, PositionalMerkleTree};
