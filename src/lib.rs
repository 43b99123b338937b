//! A fixed-depth, append-only Merkle tree accumulator stored as a complete
//! binary heap of 32-byte nodes, with its persisted byte layout.

pub mod codec;
pub mod error;
pub mod hash;
pub mod instruction;
pub mod processor;
pub mod state;
pub mod tree;
