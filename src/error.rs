use vstd::prelude::*;

verus! {

/// Every failure the accumulator and its surrounding driver can report.
/// Each kind maps to a stable numeric code (see [`MerkleTreeStorageError::code`]).
#[derive(Clone, Copy, Debug, PartialEq, Eq, Structural)]
pub enum MerkleTreeStorageError {
    /// The account given as the system program is not the system program.
    InvalidSystemProgram,
    /// Persisted bytes are malformed or too short.
    DeserializationError,
    /// The accumulator does not fit into the destination buffer.
    SerializationError,
    /// An insert was attempted on a full tree.
    TreeOverflow,
    /// The storage account is not the one derived for its owner.
    InvalidPDA,
    /// The paying account did not sign.
    PayerMustBeSigner,
    /// A tree was requested with a depth outside the supported range.
    InvalidDepth,
}

impl MerkleTreeStorageError {
    /// The stable numeric code of each error kind.
    pub open spec fn spec_code(self) -> u32 {
        match self {
            MerkleTreeStorageError::InvalidSystemProgram => 0,
            MerkleTreeStorageError::DeserializationError => 1,
            MerkleTreeStorageError::SerializationError => 2,
            MerkleTreeStorageError::TreeOverflow => 3,
            MerkleTreeStorageError::InvalidPDA => 4,
            MerkleTreeStorageError::PayerMustBeSigner => 5,
            MerkleTreeStorageError::InvalidDepth => 6,
        }
    }

    /// The numeric code under which the error is reported to the driver.
    pub fn code(&self) -> (r: u32)
        ensures
            r == self.spec_code(),
    {
        match self {
            MerkleTreeStorageError::InvalidSystemProgram => 0,
            MerkleTreeStorageError::DeserializationError => 1,
            MerkleTreeStorageError::SerializationError => 2,
            MerkleTreeStorageError::TreeOverflow => 3,
            MerkleTreeStorageError::InvalidPDA => 4,
            MerkleTreeStorageError::PayerMustBeSigner => 5,
            MerkleTreeStorageError::InvalidDepth => 6,
        }
    }
}

} // verus!
