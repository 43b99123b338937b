use vstd::prelude::*;

verus! {

/// Arguments of the instruction that appends a leaf.
#[derive(Clone, Copy, Debug, PartialEq, Eq)]
pub struct InsertLeafArgs {
    pub leaf: [u8; 32],
}

/// Arguments of the instruction that creates a tree.
#[derive(Clone, Copy, Debug, PartialEq, Eq, Structural)]
pub struct CreateTreeArgs {
    pub max_depth: u8,
}

/// The commands a driver can address to one tree.
#[derive(Clone, Copy, Debug)]
pub enum MerkleTreeInstruction {
    /// Create the tree's storage, sized for the requested depth.
    CreateTree(CreateTreeArgs),
    /// Append one leaf to the tree.
    InsertLeaf(InsertLeafArgs),
}

} // verus!
