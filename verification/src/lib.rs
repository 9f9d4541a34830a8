//! A Merkle-tree data-commitment library: incremental tree construction,
//! deterministic inclusion-proof generation, proof verification against the
//! tree's own root or against an externally supplied root, a read-only tree
//! snapshot, and a binary codec for tree-level records.

pub mod codec;
pub mod dispatch;
pub mod hash;
pub mod snapshot;
pub mod tree;
