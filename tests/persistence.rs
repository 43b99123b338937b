use merkle_tree_storage::error::MerkleTreeStorageError;
use merkle_tree_storage::instruction::{CreateTreeArgs, InsertLeafArgs, MerkleTreeInstruction};
use merkle_tree_storage::processor::{check_create_access, check_insert_access, insert_leaf_into};
use merkle_tree_storage::state::MerkleTree;
use sha2::{Digest, Sha256};

fn h(left: [u8; 32], right: [u8; 32]) -> [u8; 32] {
    let mut hasher = Sha256::new();
    hasher.update(left);
    hasher.update(right);
    hasher.finalize().into()
}

fn tree_with_leaves(depth: u8, leaves: &[[u8; 32]]) -> MerkleTree {
    let mut tree = MerkleTree::create(depth).unwrap();
    for leaf in leaves {
        tree.insert_leaf(*leaf).unwrap();
    }
    tree
}

fn saved(tree: &MerkleTree) -> Vec<u8> {
    let mut data = vec![0u8; MerkleTree::get_tree_size_bytes(tree.max_depth)];
    tree.save(&mut data).unwrap();
    data
}

#[test]
fn save_writes_the_documented_layout() {
    let tree = tree_with_leaves(1, &[[4; 32]]);
    let data = saved(&tree);
    assert_eq!(data.len(), 8 + 3 * 32 + 2);
    assert_eq!(&data[..8], &[3, 0, 0, 0, 0, 0, 0, 0]);
    assert_eq!(&data[8..40], &tree.nodes[0][..]);
    assert_eq!(&data[40..72], &[4u8; 32][..]);
    assert_eq!(&data[72..104], &[0u8; 32][..]);
    assert_eq!(data[104], 1);
    assert_eq!(data[105], 1);
}

#[test]
fn save_then_load_round_trip() {
    let tree = tree_with_leaves(3, &[[1; 32], [2; 32], [3; 32]]);
    let data = saved(&tree);
    let loaded = MerkleTree::load(&data).unwrap();
    assert_eq!(loaded.max_depth, tree.max_depth);
    assert_eq!(loaded.next_leaf_index, tree.next_leaf_index);
    assert_eq!(loaded.nodes, tree.nodes);
}

#[test]
fn save_keeps_trailing_bytes_and_load_ignores_them() {
    let tree = tree_with_leaves(2, &[[8; 32]]);
    let size = MerkleTree::get_tree_size_bytes(2);
    let mut data = vec![0xAAu8; size + 5];
    tree.save(&mut data).unwrap();
    assert_eq!(&data[size..], &[0xAA; 5]);
    let loaded = MerkleTree::load(&data).unwrap();
    assert_eq!(loaded.nodes, tree.nodes);
}

#[test]
fn save_into_short_buffer_fails_untouched() {
    let tree = tree_with_leaves(3, &[[1; 32]]);
    let mut data = vec![0x55u8; MerkleTree::get_tree_size_bytes(3) - 1];
    assert_eq!(tree.save(&mut data), Err(MerkleTreeStorageError::SerializationError));
    assert!(data.iter().all(|b| *b == 0x55));
}

#[test]
fn load_rejects_short_buffers() {
    let data = saved(&tree_with_leaves(3, &[[1; 32]]));
    assert_eq!(MerkleTree::load(&data[..data.len() - 1]).unwrap_err(), MerkleTreeStorageError::DeserializationError);
    assert_eq!(MerkleTree::load(&data[..7]).unwrap_err(), MerkleTreeStorageError::DeserializationError);
    assert_eq!(MerkleTree::load(&[]).unwrap_err(), MerkleTreeStorageError::DeserializationError);
}

#[test]
fn load_rejects_wrong_length_prefix() {
    let mut data = saved(&tree_with_leaves(3, &[]));
    data[0] = 14;
    assert_eq!(MerkleTree::load(&data).unwrap_err(), MerkleTreeStorageError::DeserializationError);
    let mut data = saved(&tree_with_leaves(3, &[]));
    data[3] = 1;
    assert_eq!(MerkleTree::load(&data).unwrap_err(), MerkleTreeStorageError::DeserializationError);
}

#[test]
fn load_rejects_bad_depth_or_counter() {
    let good = saved(&tree_with_leaves(3, &[]));
    let depth_at = 8 + 15 * 32;
    let mut data = good.clone();
    data[depth_at] = 2;
    assert_eq!(MerkleTree::load(&data).unwrap_err(), MerkleTreeStorageError::DeserializationError);
    let mut data = good.clone();
    data[depth_at + 1] = 9;
    assert_eq!(MerkleTree::load(&data).unwrap_err(), MerkleTreeStorageError::DeserializationError);
    let mut data = good.clone();
    data[depth_at + 1] = 8;
    assert_eq!(MerkleTree::load(&data).unwrap().next_leaf_index, 8);
}

#[test]
fn insert_into_saved_tree() {
    let mut data = saved(&tree_with_leaves(3, &[]));
    let root = insert_leaf_into(&mut data, [1; 32]).unwrap();
    let expected = tree_with_leaves(3, &[[1; 32]]);
    assert_eq!(root, expected.nodes[0]);
    let loaded = MerkleTree::load(&data).unwrap();
    assert_eq!(loaded.next_leaf_index, 1);
    assert_eq!(loaded.nodes, expected.nodes);
    let (l, z) = ([1u8; 32], [0u8; 32]);
    assert_eq!(root, h(h(h(l, z), h(z, z)), h(h(z, z), h(z, z))));
}

#[test]
fn insert_into_full_saved_tree_fails_untouched() {
    let leaves: Vec<[u8; 32]> = (1..=8u8).map(|i| [i; 32]).collect();
    let mut data = saved(&tree_with_leaves(3, &leaves));
    let before = data.clone();
    assert_eq!(insert_leaf_into(&mut data, [9; 32]), Err(MerkleTreeStorageError::TreeOverflow));
    assert_eq!(data, before);
}

#[test]
fn insert_into_malformed_buffer_fails_untouched() {
    let mut data = vec![1u8; 20];
    assert_eq!(insert_leaf_into(&mut data, [9; 32]), Err(MerkleTreeStorageError::DeserializationError));
    assert_eq!(data, vec![1u8; 20]);
}

#[test]
fn access_rules() {
    assert_eq!(check_insert_access(true, true, true), Ok(()));
    assert_eq!(check_insert_access(false, true, true), Err(MerkleTreeStorageError::InvalidPDA));
    assert_eq!(check_insert_access(true, false, true), Err(MerkleTreeStorageError::InvalidPDA));
    assert_eq!(check_insert_access(false, false, false), Err(MerkleTreeStorageError::InvalidPDA));
    assert_eq!(check_insert_access(true, true, false), Err(MerkleTreeStorageError::PayerMustBeSigner));
}

#[test]
fn create_access_rules() {
    assert_eq!(check_create_access(true, true), Ok(()));
    assert_eq!(check_create_access(false, true), Err(MerkleTreeStorageError::InvalidSystemProgram));
    assert_eq!(check_create_access(false, false), Err(MerkleTreeStorageError::InvalidSystemProgram));
    assert_eq!(check_create_access(true, false), Err(MerkleTreeStorageError::InvalidPDA));
}

#[test]
fn instruction_values() {
    let create = MerkleTreeInstruction::CreateTree(CreateTreeArgs { max_depth: 3 });
    let insert = MerkleTreeInstruction::InsertLeaf(InsertLeafArgs { leaf: [1; 32] });
    match create {
        MerkleTreeInstruction::CreateTree(args) => assert_eq!(args, CreateTreeArgs { max_depth: 3 }),
        _ => panic!("expected CreateTree"),
    }
    match insert {
        MerkleTreeInstruction::InsertLeaf(args) => assert_eq!(args.leaf, [1; 32]),
        _ => panic!("expected InsertLeaf"),
    }
}
