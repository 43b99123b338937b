use vstd::prelude::*;

verus! {

/// The SHA-256 digest of a byte string.
pub uninterp spec fn sha256(data: Seq<u8>) -> Seq<u8>;

/// The value of a parent node: the digest of its left child's 32 bytes
/// immediately followed by its right child's 32 bytes.
pub open spec fn hash_children(left: Seq<u8>, right: Seq<u8>) -> Seq<u8> {
    sha256(left + right)
}

/// Relies on solana_program::hash::hashv: the SHA-256 digest of the given
/// slices taken one after another, with nothing between them.
#[verifier::external_body]
pub(crate) fn hash_pair(left: &[u8; 32], right: &[u8; 32]) -> (r: [u8; 32])
    ensures
        r@ == sha256(left@ + right@),
{
    solana_program::hash::hashv(&[&left[..], &right[..]]).to_bytes()
}

} // verus!
