use vstd::prelude::*;

use vstd::arithmetic::power2::{
    lemma2_to64, lemma_pow2_adds, lemma_pow2_pos, lemma_pow2_strictly_increases, lemma_pow2_unfold, pow2,
};

use crate::hash::hash_children;

verus! {

/// Number of leaves of a tree of depth `depth`.
pub open spec fn capacity(depth: nat) -> nat {
    pow2(depth)
}

/// Number of nodes of a complete binary tree of depth `depth`.
pub open spec fn tree_size(depth: nat) -> nat {
    (2 * pow2(depth) - 1) as nat
}

/// Number of bytes of the persisted form of a tree of depth `depth`:
/// an 8-byte length, the nodes, the depth byte and the counter byte.
pub open spec fn tree_size_bytes(depth: nat) -> nat {
    8 + 32 * tree_size(depth) + 2
}


/// Index of the parent of heap position `i` (for `i > 0`).
pub open spec fn parent(i: int) -> int {
    (i - 1) / 2
}

/// Whether heap position `a` lies strictly above position `i` on the path
/// from `i` to the root.
pub open spec fn is_ancestor(a: int, i: int) -> bool
    decreases i,
{
    if i <= 0 {
        false
    } else {
        parent(i) == a || is_ancestor(a, parent(i))
    }
}

/// The value recomputed for an ancestor `i` of position `pos`: the hash of
/// its two children, where the right child counts as the root of an
/// all-zero subtree when the path to `pos` goes through the left child.
pub open spec fn path_parent_value(depth: nat, nodes: Seq<Seq<u8>>, i: int, pos: int) -> Seq<u8> {
    if 2 * i + 1 == pos || is_ancestor(2 * i + 1, pos) {
        hash_children(nodes[2 * i + 1], zero_subtree(depth - level(2 * i + 2)))
    } else {
        hash_children(nodes[2 * i + 1], nodes[2 * i + 2])
    }
}

/// `new` is `old` after writing `leaf` at position `pos` and recomputing
/// every ancestor of `pos` from the bottom up; every other node keeps its
/// value.
pub open spec fn path_updated(
    depth: nat,
    old: Seq<Seq<u8>>,
    new: Seq<Seq<u8>>,
    pos: int,
    leaf: Seq<u8>,
) -> bool {
    &&& new.len() == old.len()
    &&& forall|i: int|
        0 <= i < new.len() ==> #[trigger] new[i] == if i == pos {
            leaf
        } else if is_ancestor(i, pos) {
            path_parent_value(depth, new, i, pos)
        } else {
            old[i]
        }
}

/// An ancestor has a smaller index than its descendant, and its children
/// are no further down than the descendant.
pub proof fn lemma_ancestor_smaller(a: int, i: int)
    requires
        is_ancestor(a, i),
    ensures
        0 <= a < i,
        2 * a + 1 <= i,
    decreases i,
{
    if parent(i) != a {
        lemma_ancestor_smaller(a, parent(i));
    }
}

/// The parent of `c` is an ancestor of everything that `c` is an ancestor
/// of, and of `c` itself.
pub proof fn lemma_parent_ancestor(c: int, x: int)
    requires
        c > 0,
        c == x || is_ancestor(c, x),
    ensures
        is_ancestor(parent(c), x),
    decreases x,
{
    if c != x {
        if parent(x) != c {
            lemma_parent_ancestor(c, parent(x));
        } else {
            lemma_parent_ancestor(c, c);
        }
    }
}

/// The ancestors of a position form a chain: two of them are equal or one
/// lies above the other.
pub proof fn lemma_ancestors_chain(a: int, b: int, x: int)
    requires
        is_ancestor(a, x),
        is_ancestor(b, x),
    ensures
        a == b || is_ancestor(a, b) || is_ancestor(b, a),
    decreases x,
{
    if parent(x) != a && parent(x) != b {
        lemma_ancestors_chain(a, b, parent(x));
    } else if parent(x) == a && a != b {
        assert(is_ancestor(b, a));
    } else if parent(x) == b && a != b {
        assert(is_ancestor(a, b));
    }
}

/// Distance of heap position `i` from the root.
pub open spec fn level(i: int) -> nat
    decreases i,
{
    if i <= 0 {
        0
    } else {
        1 + level(parent(i))
    }
}

/// The root of a complete tree of height `h` whose leaves are all zero.
pub open spec fn zero_subtree(h: int) -> Seq<u8>
    decreases h,
{
    if h <= 0 {
        zero_node()
    } else {
        hash_children(zero_subtree(h - 1), zero_subtree(h - 1))
    }
}

/// The value of a node that no leaf has reached: 32 zero bytes.
pub open spec fn zero_node() -> Seq<u8> {
    Seq::new(32, |_j: int| 0u8)
}

/// Whether one of the first `k` leaf slots lies in the subtree rooted at `i`.
pub open spec fn occupied(depth: nat, k: int, i: int) -> bool
    decreases tree_size(depth) - i,
{
    if i < 0 || i >= tree_size(depth) {
        false
    } else if i >= capacity(depth) - 1 {
        i - (capacity(depth) - 1) < k
    } else {
        occupied(depth, k, 2 * i + 1) || occupied(depth, k, 2 * i + 2)
    }
}

/// The value held at heap position `i` once `leaves` were inserted in order
/// into an empty tree: a node with an inserted leaf below it (or in it)
/// holds its value in the zero-padded Merkle tree, every other node is zero.
pub open spec fn node_value(depth: nat, leaves: Seq<Seq<u8>>, i: int) -> Seq<u8> {
    if occupied(depth, leaves.len() as int, i) {
        padded_node_value(depth, leaves, i)
    } else {
        zero_node()
    }
}

/// All nodes, in heap order, after inserting `leaves` into an empty tree.
pub open spec fn accumulated_nodes(depth: nat, leaves: Seq<Seq<u8>>) -> Seq<Seq<u8>> {
    Seq::new(tree_size(depth), |i: int| node_value(depth, leaves, i))
}

/// The value of heap position `i` in the complete Merkle tree whose leaves
/// are `leaves` followed by zero leaves up to `2^depth`: every inner node is
/// the hash of its two children.
pub open spec fn padded_node_value(depth: nat, leaves: Seq<Seq<u8>>, i: int) -> Seq<u8>
    decreases tree_size(depth) - i,
{
    if i < 0 || i >= tree_size(depth) {
        zero_node()
    } else if i >= capacity(depth) - 1 {
        if i - (capacity(depth) - 1) < leaves.len() {
            leaves[i - (capacity(depth) - 1)]
        } else {
            zero_node()
        }
    } else {
        hash_children(
            padded_node_value(depth, leaves, 2 * i + 1),
            padded_node_value(depth, leaves, 2 * i + 2),
        )
    }
}

/// `leaves` followed by zero leaves up to `2^depth`.
pub open spec fn padded_leaves(depth: nat, leaves: Seq<Seq<u8>>) -> Seq<Seq<u8>> {
    Seq::new(capacity(depth), |j: int| if j < leaves.len() { leaves[j] } else { zero_node() })
}

/// The Merkle root of a sequence whose length is a power of two: a single
/// leaf is its own root, and otherwise the root is the hash of the roots of
/// the two halves.
pub open spec fn root_of(s: Seq<Seq<u8>>) -> Seq<u8>
    decreases s.len(),
{
    if s.len() <= 1 {
        if s.len() == 1 {
            s[0]
        } else {
            zero_node()
        }
    } else {
        hash_children(root_of(s.take(s.len() as int / 2)), root_of(s.skip(s.len() as int / 2)))
    }
}

/// The Merkle root of `leaves` padded with zero leaves up to `2^depth`.
pub open spec fn merkle_root(depth: nat, leaves: Seq<Seq<u8>>) -> Seq<u8> {
    root_of(padded_leaves(depth, leaves))
}

/// A node above an occupied position is occupied.
proof fn lemma_occupied_ancestor(depth: nat, k: int, a: int, x: int)
    requires
        0 <= x < tree_size(depth),
        is_ancestor(a, x),
        occupied(depth, k, x),
    ensures
        occupied(depth, k, a),
    decreases x,
{
    lemma_ancestor_smaller(a, x);
    let p = parent(x);
    assert(occupied(depth, k, p));
    if p != a {
        lemma_occupied_ancestor(depth, k, a, p);
    }
}

/// Inserting the leaf at slot `leaves.len()` changes neither the occupancy
/// nor the value of a node that is neither that slot nor one of its ancestors.
proof fn lemma_off_path_unchanged(depth: nat, leaves: Seq<Seq<u8>>, leaf: Seq<u8>, i: int)
    requires
        leaves.len() < capacity(depth),
        0 <= i < tree_size(depth),
        i != capacity(depth) - 1 + leaves.len(),
        !is_ancestor(i, capacity(depth) - 1 + leaves.len()),
    ensures
        occupied(depth, leaves.len() + 1 as int, i) == occupied(depth, leaves.len() as int, i),
        padded_node_value(depth, leaves.push(leaf), i) == padded_node_value(depth, leaves, i),
        node_value(depth, leaves.push(leaf), i) == node_value(depth, leaves, i),
    decreases tree_size(depth) - i,
{
    let pos = capacity(depth) - 1 + leaves.len();
    if i < capacity(depth) - 1 {
        if 2 * i + 1 == pos || is_ancestor(2 * i + 1, pos) {
            lemma_parent_ancestor(2 * i + 1, pos);
        }
        if 2 * i + 2 == pos || is_ancestor(2 * i + 2, pos) {
            lemma_parent_ancestor(2 * i + 2, pos);
        }
        lemma_off_path_unchanged(depth, leaves, leaf, 2 * i + 1);
        lemma_off_path_unchanged(depth, leaves, leaf, 2 * i + 2);
    }
}

/// After a path update for the next leaf, each node holds its value for the
/// extended leaf sequence.
proof fn lemma_path_update_node(
    depth: nat,
    leaves: Seq<Seq<u8>>,
    leaf: Seq<u8>,
    old: Seq<Seq<u8>>,
    new: Seq<Seq<u8>>,
    i: int,
)
    requires
        leaves.len() < capacity(depth),
        old == accumulated_nodes(depth, leaves),
        path_updated(depth, old, new, capacity(depth) - 1 + leaves.len(), leaf),
        0 <= i < tree_size(depth),
    ensures
        new[i] == node_value(depth, leaves.push(leaf), i),
    decreases tree_size(depth) - i,
{
    let pos = capacity(depth) - 1 + leaves.len();
    let k = leaves.len() as int;
    let more = leaves.push(leaf);
    assert(new[i] == if i == pos {
        leaf
    } else if is_ancestor(i, pos) {
        path_parent_value(depth, new, i, pos)
    } else {
        old[i]
    });
    if i == pos {
        assert(more[k] == leaf);
    } else if is_ancestor(i, pos) {
        let l = 2 * i + 1;
        let r = 2 * i + 2;
        lemma_ancestor_smaller(i, pos);
        assert(occupied(depth, k + 1, pos));
        lemma_occupied_ancestor(depth, k + 1, i, pos);
        lemma_path_update_node(depth, leaves, leaf, old, new, l);
        lemma_path_update_node(depth, leaves, leaf, old, new, r);
        if l == pos || is_ancestor(l, pos) {
            lemma_right_sibling_empty(depth, k, i);
            lemma_empty_is_zero_subtree(depth, more, r);
            if l != pos {
                lemma_occupied_ancestor(depth, k + 1, l, pos);
            }
        } else {
            assert(r == pos || is_ancestor(r, pos)) by {
                lemma_ancestors_chain_children(i, pos);
            }
            lemma_left_sibling_full(depth, k, i);
            lemma_off_path_unchanged(depth, leaves, leaf, l);
            if r != pos {
                lemma_occupied_ancestor(depth, k + 1, r, pos);
            }
        }
    } else {
        lemma_off_path_unchanged(depth, leaves, leaf, i);
    }
}

/// The path from an ancestor `i` of `x` down to `x` goes through one of
/// the children of `i`.
proof fn lemma_ancestors_chain_children(i: int, x: int)
    requires
        is_ancestor(i, x),
    ensures
        2 * i + 1 == x || is_ancestor(2 * i + 1, x) || 2 * i + 2 == x || is_ancestor(2 * i + 2, x),
    decreases x,
{
    if parent(x) != i {
        lemma_ancestors_chain_children(i, parent(x));
        if 2 * i + 1 == parent(x) || is_ancestor(2 * i + 1, parent(x)) {
            lemma_parent_ancestor(parent(x), x);
            lemma_ancestor_transitive(2 * i + 1, parent(x), x);
        } else {
            lemma_ancestor_transitive(2 * i + 2, parent(x), x);
        }
    }
}

/// `a` above or at `b`, and `b` strictly above `x`, puts `a` strictly above `x`.
proof fn lemma_ancestor_transitive(a: int, b: int, x: int)
    requires
        a == b || is_ancestor(a, b),
        is_ancestor(b, x),
    ensures
        is_ancestor(a, x),
    decreases x,
{
    if parent(x) != b {
        lemma_ancestor_transitive(a, b, parent(x));
    } else if a != b {
        assert(is_ancestor(a, parent(x)));
    }
}

/// Updating the path of the next free leaf slot of an accumulated tree gives
/// the accumulated tree of the extended leaf sequence.
pub proof fn lemma_path_update_accumulates(
    depth: nat,
    leaves: Seq<Seq<u8>>,
    leaf: Seq<u8>,
    old: Seq<Seq<u8>>,
    new: Seq<Seq<u8>>,
)
    requires
        leaves.len() < capacity(depth),
        old == accumulated_nodes(depth, leaves),
        path_updated(depth, old, new, capacity(depth) - 1 + leaves.len(), leaf),
    ensures
        new == accumulated_nodes(depth, leaves.push(leaf)),
{
    assert forall|i: int| 0 <= i < tree_size(depth) implies new[i] == #[trigger] accumulated_nodes(
        depth,
        leaves.push(leaf),
    )[i] by {
        lemma_path_update_node(depth, leaves, leaf, old, new, i);
    }
    assert(new =~= accumulated_nodes(depth, leaves.push(leaf)));
}

/// With no leaf inserted no node is occupied.
proof fn lemma_nothing_occupied(depth: nat, i: int)
    ensures
        !occupied(depth, 0, i),
    decreases tree_size(depth) - i,
{
    if 0 <= i < capacity(depth) - 1 {
        lemma_nothing_occupied(depth, 2 * i + 1);
        lemma_nothing_occupied(depth, 2 * i + 2);
    }
}

/// The accumulated tree of no leaves is all zero nodes.
pub proof fn lemma_no_leaves_all_zero(depth: nat)
    ensures
        accumulated_nodes(depth, Seq::empty()) == Seq::new(tree_size(depth), |_i: int| zero_node()),
{
    assert forall|i: int| 0 <= i < tree_size(depth) implies #[trigger] accumulated_nodes(
        depth,
        Seq::empty(),
    )[i] == zero_node() by {
        lemma_nothing_occupied(depth, i);
    }
    assert(accumulated_nodes(depth, Seq::empty()) =~= Seq::new(
        tree_size(depth),
        |_i: int| zero_node(),
    ));
}

/// Node `2^level - 1 + offset` of the padded heap is the root of the
/// `offset`-th block of `2^(depth - level)` padded leaves.
proof fn lemma_padded_node_is_block_root(depth: nat, leaves: Seq<Seq<u8>>, level: nat, offset: int)
    requires
        level <= depth,
        0 <= offset < pow2(level),
    ensures
        0 <= offset * pow2((depth - level) as nat),
        (offset + 1) * pow2((depth - level) as nat) <= capacity(depth),
        padded_node_value(depth, leaves, pow2(level) - 1 + offset) == root_of(
            padded_leaves(depth, leaves).subrange(
                offset * pow2((depth - level) as nat),
                (offset + 1) * pow2((depth - level) as nat),
            ),
        ),
    decreases depth - level,
{
    let h = (depth - level) as nat;
    let p = padded_leaves(depth, leaves);
    let i = pow2(level) - 1 + offset;
    lemma_pow2_pos(h);
    lemma_pow2_pos(level);
    lemma_pow2_adds(level, h);
    assert(0 <= offset * pow2(h) && (offset + 1) * pow2(h) <= pow2(level) * pow2(h)) by (nonlinear_arith)
        requires
            0 <= offset < pow2(level),
            pow2(h) > 0,
    ;
    if level == depth {
        assert(pow2(h) == 1) by {
            lemma2_to64();
        }
        assert(p.subrange(offset, offset + 1) =~= seq![p[offset]]);
        assert(offset * pow2(h) == offset && (offset + 1) * pow2(h) == offset + 1) by (nonlinear_arith)
            requires
                pow2(h) == 1,
        ;
    } else {
        let half = pow2((h - 1) as nat);
        lemma_pow2_unfold(h);
        lemma_pow2_unfold(level + 1);
        lemma_pow2_pos((h - 1) as nat);
        lemma_pow2_adds(level + 1, (h - 1) as nat);
        assert((level + 1) + (h - 1) == depth);
        assert(i < capacity(depth) - 1) by (nonlinear_arith)
            requires
                i == pow2(level) - 1 + offset,
                offset < pow2(level),
                pow2(depth) == pow2(level) * pow2(h),
                pow2(h) == 2 * half,
                half >= 1,
        ;
        lemma_padded_node_is_block_root(depth, leaves, level + 1, 2 * offset);
        lemma_padded_node_is_block_root(depth, leaves, level + 1, 2 * offset + 1);
        assert(2 * i + 1 == pow2(level + 1) - 1 + 2 * offset);
        let a = offset * pow2(h);
        let m = (2 * offset + 1) * half;
        let e = (offset + 1) * pow2(h);
        assert(a == (2 * offset) * half && a + half == m && m + half == e && e == (2 * offset + 2) * half)
            by (nonlinear_arith)
            requires
                pow2(h) == 2 * half,
                a == offset * pow2(h),
                m == (2 * offset + 1) * half,
                e == (offset + 1) * pow2(h),
        ;
        assert(e <= p.len());
        let block = p.subrange(a, e);
        assert(block.len() == 2 * half);
        assert(block.take(half as int) =~= p.subrange(a, m));
        assert(block.skip(half as int) =~= p.subrange(m, e));
    }
}

/// Once a leaf is inserted, the root of the accumulated tree is the Merkle
/// root of the zero-padded leaf sequence.
pub proof fn lemma_root_is_merkle_root(depth: nat, leaves: Seq<Seq<u8>>)
    requires
        1 <= leaves.len() <= capacity(depth),
    ensures
        node_value(depth, leaves, 0) == merkle_root(depth, leaves),
{
    lemma_pow2_pos(depth);
    let first = capacity(depth) - 1;
    assert(occupied(depth, leaves.len() as int, first));
    if first != 0 {
        lemma_root_above_all(first);
        lemma_occupied_ancestor(depth, leaves.len() as int, 0, first);
    }
    lemma2_to64();
    lemma_padded_node_is_block_root(depth, leaves, 0, 0);
    assert(padded_leaves(depth, leaves).subrange(0, capacity(depth) as int) =~= padded_leaves(depth, leaves));
}

/// The root is an ancestor of every other position.
proof fn lemma_root_above_all(x: int)
    requires
        x > 0,
    ensures
        is_ancestor(0, x),
    decreases x,
{
    if parent(x) != 0 {
        lemma_root_above_all(parent(x));
    }
}

/// The positions of level `l` are `2^l - 1 .. 2^(l+1) - 1`.
proof fn lemma_level_bounds(i: int)
    requires
        i >= 0,
    ensures
        pow2(level(i)) - 1 <= i < pow2(level(i) + 1) - 1,
    decreases i,
{
    lemma2_to64();
    if i > 0 {
        lemma_level_bounds(parent(i));
        lemma_pow2_unfold(level(parent(i)) + 1);
        lemma_pow2_unfold(level(parent(i)) + 2);
        assert(level(i) == level(parent(i)) + 1);
        assert(i == 2 * parent(i) + 1 || i == 2 * parent(i) + 2);
    }
}

/// Leaf slots lie at level `depth`, inner nodes above it.
pub(crate) proof fn lemma_slot_level(depth: nat, i: int)
    requires
        0 <= i < tree_size(depth),
    ensures
        i >= capacity(depth) - 1 ==> level(i) == depth,
        i < capacity(depth) - 1 ==> level(i) < depth,
{
    lemma_level_bounds(i);
    lemma_pow2_unfold(depth + 1);
    lemma_pow2_pos(depth);
    if level(i) > depth + 1 {
        lemma_pow2_strictly_increases(depth + 1, level(i));
    }
    if level(i) + 1 < depth {
        lemma_pow2_strictly_increases(level(i) + 1, depth);
    }
}

/// The descendants of `a` that lie `m` levels below it are the positions
/// `x` with `(a+1) * 2^m <= x + 1 < (a+2) * 2^m`.
proof fn lemma_descendant_range(a: int, x: int)
    requires
        a >= 0,
        x == a || is_ancestor(a, x),
    ensures
        level(x) >= level(a),
        (a + 1) * pow2((level(x) - level(a)) as nat) <= x + 1,
        x + 1 < (a + 2) * pow2((level(x) - level(a)) as nat),
    decreases x,
{
    if x != a {
        let p = parent(x);
        lemma_descendant_range(a, p);
        let m = (level(p) - level(a)) as nat;
        lemma_pow2_unfold(m + 1);
        assert(level(x) == level(p) + 1);
        assert(x == 2 * p + 1 || x == 2 * p + 2);
        assert((level(x) - level(a)) as nat == m + 1);
        let big = pow2(m);
        assert((a + 1) * (2 * big) <= x + 1 && x + 1 < (a + 2) * (2 * big)) by (nonlinear_arith)
            requires
                (a + 1) * big <= p + 1,
                p + 1 < (a + 2) * big,
                x == 2 * p + 1 || x == 2 * p + 2,
        ;
    } else {
        lemma2_to64();
        assert((a + 1) * 1 <= x + 1 && x + 1 < (a + 2) * 1) by (nonlinear_arith)
            requires
                x == a,
        ;
    }
}

/// Every position has a leaf slot below it (or is one).
proof fn lemma_slot_below(depth: nat, c: int) -> (x: int)
    requires
        0 <= c < tree_size(depth),
    ensures
        capacity(depth) - 1 <= x < tree_size(depth),
        x == c || is_ancestor(c, x),
    decreases tree_size(depth) - c,
{
    if c >= capacity(depth) - 1 {
        c
    } else {
        let x = lemma_slot_below(depth, 2 * c + 1);
        lemma_parent_ancestor(2 * c + 1, x);
        x
    }
}

/// An occupied position has one of the first `k` leaf slots below it (or
/// is one).
proof fn lemma_occupied_witness(depth: nat, k: int, c: int) -> (x: int)
    requires
        occupied(depth, k, c),
    ensures
        capacity(depth) - 1 <= x < tree_size(depth),
        x - (capacity(depth) - 1) < k,
        x == c || is_ancestor(c, x),
    decreases tree_size(depth) - c,
{
    if c >= capacity(depth) - 1 {
        c
    } else if occupied(depth, k, 2 * c + 1) {
        let x = lemma_occupied_witness(depth, k, 2 * c + 1);
        lemma_parent_ancestor(2 * c + 1, x);
        x
    } else {
        let x = lemma_occupied_witness(depth, k, 2 * c + 2);
        lemma_parent_ancestor(2 * c + 2, x);
        x
    }
}

/// Leaf slots below the right child of `i` come after the leaf slots below
/// its left child.
proof fn lemma_left_before_right(depth: nat, i: int, x: int, y: int)
    requires
        0 <= i,
        capacity(depth) - 1 <= x < tree_size(depth),
        capacity(depth) - 1 <= y < tree_size(depth),
        x == 2 * i + 1 || is_ancestor(2 * i + 1, x),
        y == 2 * i + 2 || is_ancestor(2 * i + 2, y),
    ensures
        x < y,
{
    lemma_descendant_range(2 * i + 1, x);
    lemma_descendant_range(2 * i + 2, y);
    lemma_slot_level(depth, x);
    lemma_slot_level(depth, y);
    assert(level(2 * i + 1) == level(2 * i + 2));
    let big = pow2((level(x) - level(2 * i + 1)) as nat);
    assert(x + 1 < y + 1) by (nonlinear_arith)
        requires
            x + 1 < (2 * i + 3) * big,
            (2 * i + 3) * big <= y + 1,
    ;
}

/// When the path to leaf slot `k` goes through the left child of `i`, no
/// slot below the right child is among the first `k + 1`.
proof fn lemma_right_sibling_empty(depth: nat, k: int, i: int)
    requires
        0 <= i,
        0 <= k < capacity(depth),
        2 * i + 1 == capacity(depth) - 1 + k || is_ancestor(2 * i + 1, capacity(depth) - 1 + k),
    ensures
        !occupied(depth, k + 1, 2 * i + 2),
{
    if occupied(depth, k + 1, 2 * i + 2) {
        let y = lemma_occupied_witness(depth, k + 1, 2 * i + 2);
        lemma_left_before_right(depth, i, capacity(depth) - 1 + k, y);
    }
}

/// When the path to leaf slot `k` goes through the right child of `i`, a
/// slot below the left child is among the first `k`.
proof fn lemma_left_sibling_full(depth: nat, k: int, i: int)
    requires
        0 <= i,
        0 <= k < capacity(depth),
        2 * i + 2 == capacity(depth) - 1 + k || is_ancestor(2 * i + 2, capacity(depth) - 1 + k),
    ensures
        occupied(depth, k, 2 * i + 1),
{
    let pos = capacity(depth) - 1 + k;
    lemma_ancestor_smaller_or_equal(2 * i + 2, pos);
    let x = lemma_slot_below(depth, 2 * i + 1);
    lemma_left_before_right(depth, i, x, pos);
    assert(occupied(depth, k, x));
    if x != 2 * i + 1 {
        lemma_occupied_ancestor(depth, k, 2 * i + 1, x);
    }
}

proof fn lemma_ancestor_smaller_or_equal(a: int, x: int)
    requires
        a == x || is_ancestor(a, x),
    ensures
        a <= x,
{
    if a != x {
        lemma_ancestor_smaller(a, x);
    }
}

/// A subtree that none of the leaves reaches holds, in the padded tree, the
/// root of an all-zero subtree of its height.
proof fn lemma_empty_is_zero_subtree(depth: nat, leaves: Seq<Seq<u8>>, c: int)
    requires
        0 <= c < tree_size(depth),
        !occupied(depth, leaves.len() as int, c),
    ensures
        padded_node_value(depth, leaves, c) == zero_subtree(depth - level(c)),
    decreases tree_size(depth) - c,
{
    lemma_slot_level(depth, c);
    if c < capacity(depth) - 1 {
        lemma_empty_is_zero_subtree(depth, leaves, 2 * c + 1);
        lemma_empty_is_zero_subtree(depth, leaves, 2 * c + 2);
        assert(level(2 * c + 1) == level(c) + 1 && level(2 * c + 2) == level(c) + 1);
    }
}

} // verus!
