use vstd::prelude::*;

use crate::codec::{
    is_valid_encoding, lemma_save_then_load, stored_depth, stored_next_leaf_index, stored_node,
    stored_node_count,
};
use crate::error::MerkleTreeStorageError;
use crate::state::{leaf_position, MerkleTree};
use crate::tree::{accumulated_nodes, capacity, merkle_root, path_updated, tree_size_bytes};

verus! {

/// The nodes of the tree persisted at the start of `b`.
pub open spec fn stored_nodes(b: Seq<u8>) -> Seq<Seq<u8>> {
    Seq::new(stored_node_count(b), |i: int| stored_node(b, i))
}

/// The leaves in the first `next_leaf_index` leaf slots of the tree
/// persisted at the start of `b`.
pub open spec fn stored_leaves(b: Seq<u8>) -> Seq<Seq<u8>> {
    stored_nodes(b).subrange(
        capacity(stored_depth(b) as nat) - 1,
        capacity(stored_depth(b) as nat) - 1 + stored_next_leaf_index(b),
    )
}

/// Every stored node holds what inserting the stored leaves, in order, into
/// an empty tree puts there.
pub open spec fn stored_is_consistent(b: Seq<u8>) -> bool {
    stored_nodes(b) == accumulated_nodes(stored_depth(b) as nat, stored_leaves(b))
}

/// The access rules of an insert, in the order they are checked: the tree
/// account must be the address derived for the payer and be owned by the
/// program (`InvalidPDA`), and the payer must have signed
/// (`PayerMustBeSigner`).
pub fn check_insert_access(
    tree_is_derived_address: bool,
    tree_owned_by_program: bool,
    payer_is_signer: bool,
) -> (r: Result<(), MerkleTreeStorageError>)
    ensures
        r is Ok <==> tree_is_derived_address && tree_owned_by_program && payer_is_signer,
        !(tree_is_derived_address && tree_owned_by_program) ==> r == Err::<(), _>(
            MerkleTreeStorageError::InvalidPDA,
        ),
        tree_is_derived_address && tree_owned_by_program && !payer_is_signer ==> r == Err::<(), _>(
            MerkleTreeStorageError::PayerMustBeSigner,
        ),
{
    if !tree_is_derived_address || !tree_owned_by_program {
        return Err(MerkleTreeStorageError::InvalidPDA);
    }
    if !payer_is_signer {
        return Err(MerkleTreeStorageError::PayerMustBeSigner);
    }
    Ok(())
}

/// The account rules of a tree creation, in the order they are checked: the
/// account given as the system program must be it (`InvalidSystemProgram`),
/// and the tree account must be the address derived for the payer
/// (`InvalidPDA`).
pub fn check_create_access(is_system_program: bool, tree_is_derived_address: bool) -> (r: Result<
    (),
    MerkleTreeStorageError,
>)
    ensures
        r is Ok <==> is_system_program && tree_is_derived_address,
        !is_system_program ==> r == Err::<(), _>(MerkleTreeStorageError::InvalidSystemProgram),
        is_system_program && !tree_is_derived_address ==> r == Err::<(), _>(
            MerkleTreeStorageError::InvalidPDA,
        ),
{
    if !is_system_program {
        return Err(MerkleTreeStorageError::InvalidSystemProgram);
    }
    if !tree_is_derived_address {
        return Err(MerkleTreeStorageError::InvalidPDA);
    }
    Ok(())
}

/// Append `leaf` to the tree persisted in `data` and return the new root:
/// load, insert, save. Fails with `DeserializationError` when `data` holds
/// no valid tree and with `TreeOverflow` when the tree is full; `data` is
/// then unchanged.
pub fn insert_leaf_into(data: &mut [u8], leaf: [u8; 32]) -> (r: Result<[u8; 32], MerkleTreeStorageError>)
    ensures
        final(data)@.len() == old(data)@.len(),
        !is_valid_encoding(old(data)@) ==> r == Err::<[u8; 32], _>(
            MerkleTreeStorageError::DeserializationError,
        ),
        is_valid_encoding(old(data)@) && stored_next_leaf_index(old(data)@) >= capacity(
            stored_depth(old(data)@) as nat,
        ) ==> r == Err::<[u8; 32], _>(MerkleTreeStorageError::TreeOverflow),
        r is Err ==> final(data)@ == old(data)@,
        r matches Ok(root) ==> {
            let before = old(data)@;
            let after = final(data)@;
            &&& is_valid_encoding(before)
            &&& is_valid_encoding(after)
            &&& stored_depth(after) == stored_depth(before)
            &&& stored_next_leaf_index(after) == stored_next_leaf_index(before) + 1
            &&& path_updated(
                stored_depth(before) as nat,
                stored_nodes(before),
                stored_nodes(after),
                leaf_position(stored_depth(before) as nat, stored_next_leaf_index(before) as nat) as int,
                leaf@,
            )
            &&& root@ == stored_nodes(after)[0]
            &&& stored_leaves(after) == stored_leaves(before).push(leaf@)
            &&& stored_is_consistent(before) ==> stored_is_consistent(after) && root@ == merkle_root(
                stored_depth(after) as nat,
                stored_leaves(after),
            )
            &&& after.skip(tree_size_bytes(stored_depth(before) as nat) as int) == before.skip(
                tree_size_bytes(stored_depth(before) as nat) as int,
            )
        },
        r is Ok <==> is_valid_encoding(old(data)@) && stored_next_leaf_index(old(data)@) < capacity(
            stored_depth(old(data)@) as nat,
        ),
{
    let mut tree = MerkleTree::load(data)?;
    let ghost loaded = tree;
    tree.insert_leaf(leaf)?;
    let ghost before = data@;
    tree.save(data)?;
    proof {
        lemma_save_then_load(tree, before.skip(tree.encoding().len() as int));
        assert(stored_nodes(before) == loaded.node_values());
        assert(data@.len() == before.len());
        assert(stored_nodes(data@) =~= tree.node_values());
        assert(stored_leaves(data@) == tree.inserted_leaves());
        assert(stored_leaves(before) == loaded.inserted_leaves());
    }
    Ok(tree.nodes[0])
}

} // verus!
