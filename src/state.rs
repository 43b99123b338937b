use vstd::arithmetic::power2::{
    lemma2_to64, lemma_pow2_pos, lemma_pow2_strictly_increases, lemma_pow2_unfold, pow2,
};
use vstd::prelude::*;

use crate::error::MerkleTreeStorageError;
use crate::hash::hash_pair;
use crate::tree::{
    accumulated_nodes, capacity, is_ancestor, lemma_ancestor_smaller, lemma_ancestors_chain,
    lemma_no_leaves_all_zero, lemma_parent_ancestor, lemma_path_update_accumulates,
    lemma_root_is_merkle_root, lemma_slot_level, level, merkle_root, parent, path_parent_value,
    path_updated, tree_size, tree_size_bytes, zero_node, zero_subtree,
};

verus! {

/// Deepest tree supported: the one-byte leaf counter must be able to hold
/// the full leaf count `2^depth`.
pub const MAX_DEPTH: u8 = 7;

/// `2^e`, computed by doubling.
pub(crate) fn pow2_usize(e: u8) -> (r: usize)
    requires
        e < 32,
    ensures
        r == pow2(e as nat),
{
    proof {
        lemma2_to64();
    }
    let mut r: usize = 1;
    let mut i: u8 = 0;
    while i < e
        invariant
            i <= e < 32,
            r == pow2(i as nat),
        decreases e - i,
    {
        proof {
            lemma2_to64();
            lemma_pow2_unfold((i + 1) as nat);
            if i + 1 < 31 {
                lemma_pow2_strictly_increases((i + 1) as nat, 31);
            }
        }
        r = r * 2;
        i = i + 1;
    }
    r
}

/// Heap position of the leaf with 0-based leaf index `k`.
pub open spec fn leaf_position(depth: nat, k: nat) -> nat {
    (capacity(depth) - 1 + k) as nat
}

/// A fixed-depth Merkle tree stored as a complete binary heap: node 0 is the
/// root and the children of node `i` are `2i+1` and `2i+2`.
#[derive(Clone, Debug)]
pub struct MerkleTree {
    /// The `2^(max_depth+1) - 1` nodes, root first, in heap order.
    pub nodes: Vec<[u8; 32]>,
    /// The depth fixed at creation; the tree has `2^max_depth` leaf slots.
    pub max_depth: u8,
    /// How many leaves were inserted; also the index of the next free leaf.
    pub next_leaf_index: u8,
}

impl MerkleTree {
    /// The nodes as byte strings, in heap order.
    pub open spec fn node_values(self) -> Seq<Seq<u8>> {
        self.nodes@.map_values(|n: [u8; 32]| n@)
    }

    /// The depth is supported, the heap has exactly the nodes of that depth
    /// and the counter is within the leaf capacity.
    pub open spec fn wf(self) -> bool {
        &&& 1 <= self.max_depth <= MAX_DEPTH
        &&& self.nodes@.len() == tree_size(self.max_depth as nat)
        &&& self.next_leaf_index <= capacity(self.max_depth as nat)
    }

    /// The leaves inserted so far, read from the first `next_leaf_index` leaf
    /// slots.
    pub open spec fn inserted_leaves(self) -> Seq<Seq<u8>> {
        self.node_values().subrange(
            capacity(self.max_depth as nat) - 1,
            capacity(self.max_depth as nat) - 1 + self.next_leaf_index,
        )
    }

    /// Every node holds what inserting the leaves in its slots, in order,
    /// into an empty tree puts there. This holds of every tree built by
    /// [`MerkleTree::create`] and [`MerkleTree::insert_leaf`].
    pub open spec fn is_consistent(self) -> bool {
        self.node_values() == accumulated_nodes(self.max_depth as nat, self.inserted_leaves())
    }

    /// Whether every leaf slot is taken.
    pub open spec fn is_full(self) -> bool {
        self.next_leaf_index >= capacity(self.max_depth as nat)
    }

    /// Append a leaf: write it into the next free leaf slot, recompute the
    /// path from that slot up to the root, then advance the counter. A path
    /// node that is a left child is hashed with the root of an all-zero
    /// subtree of its height, so the root is the Merkle root of the leaves
    /// padded with zero leaves. A full tree is left untouched and the call
    /// fails with `TreeOverflow`.
    pub fn insert_leaf(&mut self, leaf: [u8; 32]) -> (r: Result<(), MerkleTreeStorageError>)
        requires
            old(self).wf(),
        ensures
            r is Ok <==> !old(self).is_full(),
            r is Err ==> r == Err::<(), _>(MerkleTreeStorageError::TreeOverflow) && *final(self) == *old(self),
            r is Ok ==> {
                &&& final(self).max_depth == old(self).max_depth
                &&& final(self).next_leaf_index == old(self).next_leaf_index + 1
                &&& path_updated(
                    old(self).max_depth as nat,
                    old(self).node_values(),
                    final(self).node_values(),
                    leaf_position(old(self).max_depth as nat, old(self).next_leaf_index as nat) as int,
                    leaf@,
                )
                &&& forall|i: int|
                    0 <= i < old(self).nodes@.len() && i != leaf_position(
                        old(self).max_depth as nat,
                        old(self).next_leaf_index as nat,
                    ) && !is_ancestor(
                        i,
                        leaf_position(old(self).max_depth as nat, old(self).next_leaf_index as nat) as int,
                    ) ==> #[trigger] final(self).nodes@[i] == old(self).nodes@[i]
                &&& final(self).inserted_leaves() == old(self).inserted_leaves().push(leaf@)
                &&& old(self).is_consistent() ==> final(self).is_consistent()
                &&& old(self).is_consistent() ==> final(self).node_values()[0] == merkle_root(
                    final(self).max_depth as nat,
                    final(self).inserted_leaves(),
                )
            },
            final(self).wf(),
    {
        let ghost old_values = self.node_values();
        let ghost depth = self.max_depth as nat;
        proof {
            lemma_pow2_pos(self.max_depth as nat);
            lemma_pow2_strictly_increases(self.max_depth as nat, 8);
            lemma2_to64();
        }
        let leaf_pos = pow2_usize(self.max_depth) - 1 + self.next_leaf_index as usize;
        if leaf_pos >= Self::get_tree_size(self.max_depth) {
            return Err(MerkleTreeStorageError::TreeOverflow);
        }
        let ghost pos = leaf_pos as int;
        let ghost len = self.nodes@.len() as int;
        assert(len % 2 == 1 && len <= 255);
        assert forall|i: int| is_ancestor(i, pos) implies i < pos by {
            lemma_ancestor_smaller(i, pos);
        }
        proof {
            lemma_slot_level(depth, pos);
        }
        self.nodes.set(leaf_pos, leaf);
        let mut current = leaf_pos;
        // The root of an all-zero subtree as high as `current`.
        let mut zero_root: [u8; 32] = [0u8; 32];
        assert(zero_root@ =~= zero_subtree(0));
        while current > 0
            invariant
                self.nodes@.len() == len,
                self.max_depth == old(self).max_depth,
                self.next_leaf_index == old(self).next_leaf_index,
                depth == self.max_depth,
                !old(self).is_full(),
                pos == leaf_position(old(self).max_depth as nat, old(self).next_leaf_index as nat),
                len % 2 == 1,
                len <= 255,
                pos < len,
                current <= pos,
                current == pos || is_ancestor(current as int, pos),
                level(current as int) <= depth,
                zero_root@ == zero_subtree(depth - level(current as int)),
                forall|i: int|
                    0 <= i < len ==> #[trigger] self.node_values()[i] == if i == pos {
                        leaf@
                    } else if is_ancestor(i, pos) && i >= current {
                        path_parent_value(depth, self.node_values(), i, pos)
                    } else {
                        old_values[i]
                    },
                forall|i: int|
                    0 <= i < len && i != pos && !(is_ancestor(i, pos) && i >= current) ==> #[trigger] self.nodes@[i]
                        == old(self).nodes@[i],
            decreases current,
        {
            let ghost c = current as int;
            let p = (current - 1) / 2;
            let ghost before = self.node_values();
            assert(2 * p + 2 < len) by {
                if c % 2 == 1 {
                    assert(c + 1 < len);
                }
            }
            let value = if current % 2 == 1 {
                hash_pair(&self.nodes[current], &zero_root)
            } else {
                hash_pair(&self.nodes[current - 1], &self.nodes[current])
            };
            self.nodes.set(p, value);
            proof {
                lemma_parent_ancestor(c, pos);
                assert(level(2 * p + 2) == level(p as int) + 1 && level(c) == level(p as int) + 1);
                if c % 2 == 0 {
                    if c == pos {
                        if is_ancestor(c - 1, pos) {
                            lemma_ancestor_smaller(c - 1, pos);
                        }
                    } else {
                        lemma_ancestor_smaller(c, pos);
                        if is_ancestor(c - 1, pos) {
                            lemma_ancestors_chain(c - 1, c, pos);
                            if is_ancestor(c - 1, c) {
                                lemma_ancestor_smaller(c - 1, c);
                            }
                            if is_ancestor(c, c - 1) {
                                lemma_ancestor_smaller(c, c - 1);
                            }
                        }
                    }
                }
                assert forall|i: int| 0 <= i < len implies #[trigger] self.node_values()[i] == if i == pos {
                    leaf@
                } else if is_ancestor(i, pos) && i >= p {
                    path_parent_value(depth, self.node_values(), i, pos)
                } else {
                    old_values[i]
                } by {
                    if i != p {
                        assert(self.node_values()[i] == before[i]);
                        if is_ancestor(i, pos) {
                            lemma_ancestor_smaller(i, pos);
                            if c != pos {
                                lemma_ancestors_chain(i, c, pos);
                                if is_ancestor(c, i) {
                                    lemma_ancestor_smaller(c, i);
                                } else if is_ancestor(i, c) {
                                    if parent(c) != i {
                                        lemma_ancestor_smaller(i, parent(c));
                                    }
                                }
                            } else if parent(c) != i {
                                lemma_ancestor_smaller(i, parent(c));
                            }
                            if i >= p {
                                assert(self.node_values()[2 * i + 1] == before[2 * i + 1]);
                                assert(self.node_values()[2 * i + 2] == before[2 * i + 2]);
                            }
                        }
                    } else {
                        assert(self.node_values()[2 * p + 1] == before[2 * p + 1]);
                        assert(self.node_values()[2 * p + 2] == before[2 * p + 2]);
                    }
                }
            }
            zero_root = hash_pair(&zero_root, &zero_root);
            current = p;
        }
        let ghost final_values = self.node_values();
        assert forall|i: int| 0 <= i < len implies #[trigger] final_values[i] == if i == pos {
            leaf@
        } else if is_ancestor(i, pos) {
            path_parent_value(depth, final_values, i, pos)
        } else {
            old_values[i]
        } by {
            assert(self.node_values()[i] == final_values[i]);
        }
        self.next_leaf_index = self.next_leaf_index + 1;
        proof {
            assert(self.node_values() == final_values);
            lemma_insert_leaves_extend(*old(self), *self, leaf, old_values);
        }
        Ok(())
    }

    /// A tree of depth `max_depth` with every node zero and no leaf inserted;
    /// fails with `InvalidDepth` unless `1 <= max_depth <= MAX_DEPTH`.
    pub fn create(max_depth: u8) -> (r: Result<MerkleTree, MerkleTreeStorageError>)
        ensures
            r is Ok <==> 1 <= max_depth <= MAX_DEPTH,
            r is Err ==> r == Err::<MerkleTree, _>(MerkleTreeStorageError::InvalidDepth),
            r matches Ok(t) ==> {
                &&& t.wf()
                &&& t.max_depth == max_depth
                &&& t.next_leaf_index == 0
                &&& t.node_values() == Seq::new(tree_size(max_depth as nat), |_i: int| zero_node())
                &&& t.inserted_leaves() == Seq::<Seq<u8>>::empty()
                &&& t.is_consistent()
            },
    {
        if max_depth < 1 || max_depth > MAX_DEPTH {
            return Err(MerkleTreeStorageError::InvalidDepth);
        }
        let size = Self::get_tree_size(max_depth);
        let zero: [u8; 32] = [0u8; 32];
        assert(zero@ =~= zero_node());
        let mut nodes: Vec<[u8; 32]> = Vec::new();
        while nodes.len() < size
            invariant
                nodes@.len() <= size,
                zero@ == zero_node(),
                forall|i: int| 0 <= i < nodes@.len() ==> #[trigger] nodes@[i]@ == zero_node(),
            decreases size - nodes@.len(),
        {
            nodes.push(zero);
        }
        let tree = MerkleTree { nodes, max_depth, next_leaf_index: 0 };
        proof {
            lemma_pow2_pos(max_depth as nat);
            assert(tree.node_values() =~= Seq::new(tree_size(max_depth as nat), |_i: int| zero_node()));
            assert(tree.inserted_leaves() =~= Seq::<Seq<u8>>::empty());
            lemma_no_leaves_all_zero(max_depth as nat);
        }
        Ok(tree)
    }

    /// Number of nodes of a tree of depth `max_depth`: `2^(max_depth+1) - 1`.
    /// The bound on the depth keeps the count within a 32-bit `usize`.
    pub fn get_tree_size(max_depth: u8) -> (r: usize)
        requires
            max_depth < 31,
        ensures
            r == tree_size(max_depth as nat),
    {
        proof {
            lemma_pow2_unfold((max_depth + 1) as nat);
            lemma_pow2_pos(max_depth as nat);
        }
        pow2_usize(max_depth + 1) - 1
    }

    /// Number of bytes of the persisted form of a tree of depth `max_depth`:
    /// `8 + 32 * (2^(max_depth+1) - 1) + 2`. The bound on the depth keeps the
    /// size within a 32-bit `usize`.
    pub fn get_tree_size_bytes(max_depth: u8) -> (r: usize)
        requires
            max_depth <= 26,
        ensures
            r == tree_size_bytes(max_depth as nat),
    {
        let tree_size = Self::get_tree_size(max_depth);
        proof {
            lemma2_to64();
            lemma_pow2_strictly_increases(max_depth as nat, 27);
        }
        8 + tree_size * 32 + 2
    }
}

/// After a path update for the next free slot the inserted leaves grow by
/// `leaf`, and a consistent tree stays consistent.
proof fn lemma_insert_leaves_extend(
    old: MerkleTree,
    new: MerkleTree,
    leaf: [u8; 32],
    old_values: Seq<Seq<u8>>,
)
    requires
        old.wf(),
        !old.is_full(),
        old_values == old.node_values(),
        new.max_depth == old.max_depth,
        new.next_leaf_index == old.next_leaf_index + 1,
        path_updated(
            old.max_depth as nat,
            old_values,
            new.node_values(),
            leaf_position(old.max_depth as nat, old.next_leaf_index as nat) as int,
            leaf@,
        ),
    ensures
        new.inserted_leaves() == old.inserted_leaves().push(leaf@),
        old.is_consistent() ==> new.is_consistent(),
        old.is_consistent() ==> new.node_values()[0] == merkle_root(
            new.max_depth as nat,
            new.inserted_leaves(),
        ),
{
    let pos = leaf_position(old.max_depth as nat, old.next_leaf_index as nat) as int;
    lemma_pow2_pos(old.max_depth as nat);
    let cap = capacity(new.max_depth as nat) as int;
    let old_leaves = old.inserted_leaves();
    assert forall|j: int| 0 <= j <= old_leaves.len() implies #[trigger] new.inserted_leaves()[j]
        == old_leaves.push(leaf@)[j] by {
        if j < old_leaves.len() && is_ancestor(cap - 1 + j, pos) {
            lemma_ancestor_smaller(cap - 1 + j, pos);
        }
    }
    assert(new.inserted_leaves() =~= old_leaves.push(leaf@));
    if old.is_consistent() {
        lemma_path_update_accumulates(
            new.max_depth as nat,
            old_leaves,
            leaf@,
            old_values,
            new.node_values(),
        );
        lemma_root_is_merkle_root(new.max_depth as nat, new.inserted_leaves());
    }
}

/// In a tree built by creating it and inserting leaves in order, the counter
/// is the number of leaves inserted; once a leaf is inserted, the root is
/// the Merkle root of the inserted leaves padded with zero leaves to the
/// full capacity, and before that it is zero.
pub proof fn lemma_root_of_inserted_leaves(t: MerkleTree)
    requires
        t.wf(),
        t.is_consistent(),
    ensures
        t.inserted_leaves().len() == t.next_leaf_index,
        t.next_leaf_index >= 1 ==> t.node_values()[0] == merkle_root(
            t.max_depth as nat,
            t.inserted_leaves(),
        ),
        t.next_leaf_index == 0 ==> t.node_values()[0] == zero_node(),
{
    lemma_pow2_pos(t.max_depth as nat);
    if t.next_leaf_index >= 1 {
        lemma_root_is_merkle_root(t.max_depth as nat, t.inserted_leaves());
    } else {
        lemma_no_leaves_all_zero(t.max_depth as nat);
        assert(t.inserted_leaves() =~= Seq::<Seq<u8>>::empty());
    }
}

} // verus!
