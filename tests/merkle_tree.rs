use merkle_tree_storage::error::MerkleTreeStorageError;
use merkle_tree_storage::state::{MerkleTree, MAX_DEPTH};
use sha2::{Digest, Sha256};

fn sha256(data: &[u8]) -> [u8; 32] {
    let mut hasher = Sha256::new();
    hasher.update(data);
    hasher.finalize().into()
}

fn h(left: [u8; 32], right: [u8; 32]) -> [u8; 32] {
    let mut data = left.to_vec();
    data.extend_from_slice(&right);
    sha256(&data)
}

/// The Merkle root of `leaves`, whose length is a power of two.
fn padded_root(leaves: &[[u8; 32]]) -> [u8; 32] {
    if leaves.len() == 1 {
        return leaves[0];
    }
    let half = leaves.len() / 2;
    h(padded_root(&leaves[..half]), padded_root(&leaves[half..]))
}

/// `leaves` followed by zero leaves up to `capacity`.
fn padded(leaves: &[[u8; 32]], capacity: usize) -> Vec<[u8; 32]> {
    let mut all = leaves.to_vec();
    all.resize(capacity, [0u8; 32]);
    all
}

fn named_leaves(names: &[&str]) -> Vec<[u8; 32]> {
    names.iter().map(|n| sha256(n.as_bytes())).collect()
}

const EIGHT: [&str; 8] = ["First", "Second", "Third", "Fourth", "Fifth", "Sixth", "Seventh", "Eighth"];

#[test]
fn create_gives_zero_nodes_and_empty_counter() {
    for depth in 1..=MAX_DEPTH {
        let tree = MerkleTree::create(depth).unwrap();
        assert_eq!(tree.max_depth, depth);
        assert_eq!(tree.next_leaf_index, 0);
        assert_eq!(tree.nodes.len(), (1usize << (depth + 1)) - 1);
        assert!(tree.nodes.iter().all(|n| *n == [0u8; 32]));
    }
}

#[test]
fn create_rejects_unsupported_depths() {
    assert_eq!(MerkleTree::create(0).unwrap_err(), MerkleTreeStorageError::InvalidDepth);
    assert_eq!(MerkleTree::create(MAX_DEPTH + 1).unwrap_err(), MerkleTreeStorageError::InvalidDepth);
    assert_eq!(MerkleTree::create(255).unwrap_err(), MerkleTreeStorageError::InvalidDepth);
    assert_eq!(MerkleTree::create(0).unwrap_err().code(), 6);
}

#[test]
fn tree_sizes() {
    assert_eq!(MerkleTree::get_tree_size(0), 1);
    assert_eq!(MerkleTree::get_tree_size(3), 15);
    assert_eq!(MerkleTree::get_tree_size(7), 255);
    assert_eq!(MerkleTree::get_tree_size(30), (1usize << 31) - 1);
    assert_eq!(MerkleTree::get_tree_size_bytes(3), 8 + 15 * 32 + 2);
    assert_eq!(MerkleTree::get_tree_size_bytes(7), 8 + 255 * 32 + 2);
}

#[test]
fn create_insert_leaf() {
    let mut tree = MerkleTree::create(3).unwrap();
    tree.insert_leaf([1; 32]).unwrap();
    assert_eq!(tree.next_leaf_index, 1);
    assert_eq!(tree.nodes[0], padded_root(&padded(&[[1; 32]], 8)));
}

#[test]
fn single_leaf_root_is_padded_root() {
    let z = [0u8; 32];
    let l = [1u8; 32];
    let mut tree = MerkleTree::create(3).unwrap();
    tree.insert_leaf(l).unwrap();
    assert_eq!(tree.next_leaf_index, 1);
    let expected = h(h(h(l, z), h(z, z)), h(h(z, z), h(z, z)));
    assert_eq!(tree.nodes[0], expected);
    assert_eq!(tree.nodes[7], l);
    assert_eq!(tree.nodes[3], h(l, z));
    assert_eq!(tree.nodes[1], h(h(l, z), h(z, z)));
    // Nodes that no leaf has reached stay zero.
    assert_eq!(tree.nodes[2], z);
    assert_eq!(tree.nodes[4], z);
    assert_eq!(tree.nodes[8], z);
}

#[test]
fn every_prefix_has_padded_root() {
    let leaves = named_leaves(&EIGHT);
    let mut tree = MerkleTree::create(3).unwrap();
    for k in 0..leaves.len() {
        tree.insert_leaf(leaves[k]).unwrap();
        assert_eq!(tree.next_leaf_index as usize, k + 1);
        assert_eq!(tree.nodes[0], padded_root(&padded(&leaves[..k + 1], 8)));
    }
}

#[test]
fn insert_maximum_leafs() {
    let leaves = named_leaves(&EIGHT);
    let mut tree = MerkleTree::create(3).unwrap();
    for leaf in &leaves {
        tree.insert_leaf(*leaf).unwrap();
    }
    assert_eq!(tree.next_leaf_index, leaves.len() as u8);
    let l = &leaves;
    let expected = h(h(h(l[0], l[1]), h(l[2], l[3])), h(h(l[4], l[5]), h(l[6], l[7])));
    assert_eq!(tree.nodes[0], expected);
    assert_eq!(tree.nodes[0], padded_root(&leaves));
}

#[test]
fn overflow_tree() {
    let leaves = named_leaves(&["First", "Second", "Third", "Fourth", "Fifth", "Sixth", "Seventh", "Eighth", "Ninth"]);
    let mut tree = MerkleTree::create(3).unwrap();
    for leaf in &leaves[..8] {
        tree.insert_leaf(*leaf).unwrap();
    }
    let nodes_before = tree.nodes.clone();
    let err = tree.insert_leaf(leaves[8]).unwrap_err();
    assert_eq!(err, MerkleTreeStorageError::TreeOverflow);
    assert_eq!(err.code(), 3);
    assert_eq!(tree.nodes, nodes_before);
    assert_eq!(tree.next_leaf_index, 8);
    assert_eq!(tree.max_depth, 3);
    // The full state is terminal.
    assert_eq!(tree.insert_leaf([7; 32]).unwrap_err(), MerkleTreeStorageError::TreeOverflow);
    assert_eq!(tree.nodes, nodes_before);
}

#[test]
fn full_tree_of_depth_one() {
    let mut tree = MerkleTree::create(1).unwrap();
    tree.insert_leaf([5; 32]).unwrap();
    tree.insert_leaf([6; 32]).unwrap();
    assert_eq!(tree.nodes, vec![h([5; 32], [6; 32]), [5; 32], [6; 32]]);
    assert_eq!(tree.insert_leaf([7; 32]), Err(MerkleTreeStorageError::TreeOverflow));
}

#[test]
fn deepest_tree_fills_to_capacity() {
    let mut tree = MerkleTree::create(MAX_DEPTH).unwrap();
    let leaves: Vec<[u8; 32]> = (0..128u32).map(|i| sha256(&i.to_le_bytes())).collect();
    for leaf in &leaves {
        tree.insert_leaf(*leaf).unwrap();
    }
    assert_eq!(tree.next_leaf_index, 128);
    assert_eq!(tree.nodes[0], padded_root(&leaves));
    assert_eq!(tree.insert_leaf([0; 32]), Err(MerkleTreeStorageError::TreeOverflow));
}

#[test]
fn insert_multiple_leafs() {
    let leaves = named_leaves(&["First", "Second", "Third"]);
    let mut tree = MerkleTree::create(3).unwrap();
    for leaf in &leaves {
        tree.insert_leaf(*leaf).unwrap();
    }
    assert_eq!(tree.next_leaf_index, 3);
    assert_eq!(tree.nodes[0], padded_root(&padded(&leaves, 8)));
}

#[test]
fn same_leaf_twice_is_two_leaves() {
    let mut tree = MerkleTree::create(2).unwrap();
    tree.insert_leaf([9; 32]).unwrap();
    tree.insert_leaf([9; 32]).unwrap();
    assert_eq!(tree.next_leaf_index, 2);
    assert_eq!(tree.nodes[3], [9; 32]);
    assert_eq!(tree.nodes[4], [9; 32]);
    assert_eq!(tree.nodes[1], h([9; 32], [9; 32]));
}

#[test]
fn insert_changes_only_the_leaf_path() {
    let leaves = named_leaves(&EIGHT[..5]);
    let mut tree = MerkleTree::create(3).unwrap();
    for leaf in &leaves[..4] {
        tree.insert_leaf(*leaf).unwrap();
    }
    let before = tree.nodes.clone();
    tree.insert_leaf(leaves[4]).unwrap();
    // Leaf slot 4 is heap position 11; its ancestors are 5, 2 and 0.
    let path = [11usize, 5, 2, 0];
    for i in 0..before.len() {
        if path.contains(&i) {
            assert_ne!(tree.nodes[i], before[i], "node {} should change", i);
        } else {
            assert_eq!(tree.nodes[i], before[i], "node {} should be untouched", i);
        }
    }
    assert_eq!(tree.nodes[5], h(leaves[4], [0; 32]));
}

#[test]
fn error_codes_are_stable() {
    assert_eq!(MerkleTreeStorageError::InvalidSystemProgram.code(), 0);
    assert_eq!(MerkleTreeStorageError::DeserializationError.code(), 1);
    assert_eq!(MerkleTreeStorageError::SerializationError.code(), 2);
    assert_eq!(MerkleTreeStorageError::TreeOverflow.code(), 3);
    assert_eq!(MerkleTreeStorageError::InvalidPDA.code(), 4);
    assert_eq!(MerkleTreeStorageError::PayerMustBeSigner.code(), 5);
    assert_eq!(MerkleTreeStorageError::InvalidDepth.code(), 6);
}
