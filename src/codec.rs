use vstd::arithmetic::power2::{lemma2_to64, lemma_pow2_pos, lemma_pow2_strictly_increases};
use vstd::prelude::*;

use crate::error::MerkleTreeStorageError;
use crate::state::{pow2_usize, MerkleTree, MAX_DEPTH};
use crate::tree::{capacity, tree_size, tree_size_bytes};

verus! {

/// The `n` low-order bytes of `v`, least significant first.
pub open spec fn le_bytes(v: nat, n: nat) -> Seq<u8>
    decreases n,
{
    if n == 0 {
        Seq::empty()
    } else {
        seq![(v % 256) as u8] + le_bytes(v / 256, (n - 1) as nat)
    }
}

/// The number whose bytes, least significant first, are `s`.
pub open spec fn le_value(s: Seq<u8>) -> nat
    decreases s.len(),
{
    if s.len() == 0 {
        0
    } else {
        s[0] as nat + 256 * le_value(s.drop_first())
    }
}

/// The nodes' bytes one node after another.
pub open spec fn node_bytes(nodes: Seq<Seq<u8>>) -> Seq<u8> {
    Seq::new(32 * nodes.len(), |b: int| nodes[b / 32][b % 32])
}

/// The node count held by the 8-byte prefix of a persisted tree.
pub open spec fn stored_node_count(b: Seq<u8>) -> nat {
    le_value(b.take(8))
}

/// The `i`-th stored node of a persisted tree.
pub open spec fn stored_node(b: Seq<u8>, i: int) -> Seq<u8> {
    b.subrange(8 + 32 * i, 8 + 32 * i + 32)
}

/// The depth byte, which follows the stored nodes.
pub open spec fn stored_depth(b: Seq<u8>) -> u8 {
    b[8 + 32 * stored_node_count(b) as int]
}

/// The leaf counter byte, which follows the depth byte.
pub open spec fn stored_next_leaf_index(b: Seq<u8>) -> u8 {
    b[8 + 32 * stored_node_count(b) as int + 1]
}

/// Whether `b` starts with a persisted tree: the buffer holds the prefix, as
/// many nodes as it announces and the two trailing bytes; the depth is
/// supported, the node count is the one of that depth and the counter is
/// within the capacity.
pub open spec fn is_valid_encoding(b: Seq<u8>) -> bool {
    &&& b.len() >= 8
    &&& b.len() >= 8 + 32 * stored_node_count(b) + 2
    &&& 1 <= stored_depth(b) <= MAX_DEPTH
    &&& stored_node_count(b) == tree_size(stored_depth(b) as nat)
    &&& stored_next_leaf_index(b) <= capacity(stored_depth(b) as nat)
}

proof fn lemma_le_value_zero(s: Seq<u8>)
    requires
        forall|j: int| 0 <= j < s.len() ==> s[j] == 0,
    ensures
        le_value(s) == 0,
    decreases s.len(),
{
    if s.len() > 0 {
        lemma_le_value_zero(s.drop_first());
    }
}

proof fn lemma_le_value_nonzero(s: Seq<u8>, j: int)
    requires
        0 <= j < s.len(),
        s[j] != 0,
    ensures
        le_value(s) >= 1,
    decreases s.len(),
{
    if j > 0 {
        lemma_le_value_nonzero(s.drop_first(), j - 1);
    }
}

/// An 8-byte prefix whose upper seven bytes are zero holds its first byte;
/// otherwise it holds at least 256.
proof fn lemma_prefix_value(s: Seq<u8>)
    requires
        s.len() == 8,
    ensures
        (forall|j: int| 1 <= j < 8 ==> s[j] == 0) ==> le_value(s) == s[0],
        (exists|j: int| 1 <= j < 8 && s[j] != 0) ==> le_value(s) >= 256,
{
    if forall|j: int| 1 <= j < 8 ==> s[j] == 0 {
        lemma_le_value_zero(s.drop_first());
    }
    if exists|j: int| 1 <= j < 8 && s[j] != 0 {
        let j = choose|j: int| 1 <= j < 8 && s[j] != 0;
        lemma_le_value_nonzero(s.drop_first(), j - 1);
    }
}

/// A supported depth has at most 255 nodes.
proof fn lemma_small_tree(depth: nat)
    requires
        1 <= depth <= MAX_DEPTH,
    ensures
        1 <= capacity(depth) <= 128,
        tree_size(depth) <= 255,
{
    lemma2_to64();
    lemma_pow2_pos(depth);
    if depth < 7 {
        lemma_pow2_strictly_increases(depth, 7);
    }
}

/// Byte `32 * i + b` of the concatenated nodes is byte `b` of node `i`.
proof fn lemma_node_byte(nodes: Seq<Seq<u8>>, i: int, b: int)
    requires
        0 <= i < nodes.len(),
        0 <= b < 32,
    ensures
        0 <= 32 * i + b < 32 * nodes.len(),
        node_bytes(nodes)[32 * i + b] == nodes[i][b],
{
    assert((32 * i + b) / 32 == i && (32 * i + b) % 32 == b) by (nonlinear_arith)
        requires
            0 <= b < 32,
    ;
    assert(32 * i + b < 32 * nodes.len()) by (nonlinear_arith)
        requires
            0 <= i < nodes.len(),
            0 <= b < 32,
    ;
}

/// A count below 256 is its low byte followed by seven zero bytes.
proof fn lemma_le_bytes_small(v: nat)
    requires
        v < 256,
    ensures
        le_bytes(v, 8) == seq![v as u8, 0u8, 0u8, 0u8, 0u8, 0u8, 0u8, 0u8],
{
    reveal_with_fuel(le_bytes, 9);
    assert(le_bytes(v, 8) =~= seq![v as u8, 0u8, 0u8, 0u8, 0u8, 0u8, 0u8, 0u8]);
}

impl MerkleTree {
    /// The persisted form: the node count as 8 bytes little-endian, every
    /// node in heap order, then the depth byte and the counter byte.
    pub open spec fn encoding(self) -> Seq<u8> {
        le_bytes(self.nodes@.len() as nat, 8) + node_bytes(self.node_values()) + seq![
            self.max_depth,
            self.next_leaf_index,
        ]
    }

    /// Write the persisted form to the start of `data`, leaving the bytes
    /// after it as they were. Fails with `SerializationError`, writing
    /// nothing, when `data` is shorter than the persisted form.
    pub fn save(&self, data: &mut [u8]) -> (r: Result<(), MerkleTreeStorageError>)
        requires
            self.wf(),
        ensures
            final(data)@.len() == old(data)@.len(),
            self.encoding().len() == tree_size_bytes(self.max_depth as nat),
            r is Ok <==> old(data)@.len() >= tree_size_bytes(self.max_depth as nat),
            r is Err ==> r == Err::<(), _>(MerkleTreeStorageError::SerializationError) && final(data)@
                == old(data)@,
            r is Ok ==> final(data)@ == self.encoding() + old(data)@.skip(self.encoding().len() as int),
    {
        let ghost enc = self.encoding();
        let ghost before = data@;
        proof {
            lemma_small_tree(self.max_depth as nat);
            lemma_le_bytes_small(self.nodes@.len() as nat);
        }
        let size = Self::get_tree_size_bytes(self.max_depth);
        assert(enc.len() == size);
        if data.len() < size {
            return Err(MerkleTreeStorageError::SerializationError);
        }
        let n = self.nodes.len();
        data[0] = n as u8;
        let mut j: usize = 1;
        while j < 8
            invariant
                1 <= j <= 8,
                data@.len() == before.len() >= size,
                enc == self.encoding(),
                enc.len() == size,
                n == self.nodes@.len() <= 255,
                le_bytes(n as nat, 8) == seq![n as u8, 0u8, 0u8, 0u8, 0u8, 0u8, 0u8, 0u8],
                forall|q: int| 0 <= q < j ==> #[trigger] data@[q] == enc[q],
                forall|q: int| j <= q < data@.len() ==> #[trigger] data@[q] == before[q],
            decreases 8 - j,
        {
            data[j] = 0;
            j = j + 1;
        }
        let mut i: usize = 0;
        while i < n
            invariant
                i <= n,
                data@.len() == before.len() >= size,
                enc == self.encoding(),
                enc.len() == size,
                size == 8 + 32 * n + 2,
                n == self.nodes@.len() <= 255,
                forall|q: int| 0 <= q < 8 + 32 * i ==> #[trigger] data@[q] == enc[q],
                forall|q: int| 8 + 32 * i <= q < data@.len() ==> #[trigger] data@[q] == before[q],
            decreases n - i,
        {
            let node = self.nodes[i];
            let mut b: usize = 0;
            while b < 32
                invariant
                    i < n,
                    b <= 32,
                    data@.len() == before.len() >= size,
                    enc == self.encoding(),
                    enc.len() == size,
                    size == 8 + 32 * n + 2,
                    n == self.nodes@.len() <= 255,
                    node == self.nodes@[i as int],
                    forall|q: int| 0 <= q < 8 + 32 * i + b ==> #[trigger] data@[q] == enc[q],
                    forall|q: int| 8 + 32 * i + b <= q < data@.len() ==> #[trigger] data@[q] == before[q],
                decreases 32 - b,
            {
                proof {
                    lemma_node_byte(self.node_values(), i as int, b as int);
                }
                data[8 + 32 * i + b] = node[b];
                b = b + 1;
            }
            i = i + 1;
        }
        data[8 + 32 * n] = self.max_depth;
        data[9 + 32 * n] = self.next_leaf_index;
        assert(data@ =~= enc + before.skip(enc.len() as int));
        Ok(())
    }

    /// Read a tree from the start of a persisted buffer. Fails with
    /// `DeserializationError` unless the buffer starts with a valid
    /// persisted tree; bytes after it are ignored.
    pub fn load(data: &[u8]) -> (r: Result<MerkleTree, MerkleTreeStorageError>)
        ensures
            r is Ok <==> is_valid_encoding(data@),
            r is Err ==> r == Err::<MerkleTree, _>(MerkleTreeStorageError::DeserializationError),
            r matches Ok(t) ==> {
                &&& t.wf()
                &&& t.max_depth == stored_depth(data@)
                &&& t.next_leaf_index == stored_next_leaf_index(data@)
                &&& t.node_values() == Seq::new(
                    stored_node_count(data@),
                    |i: int| stored_node(data@, i),
                )
            },
    {
        let len = data.len();
        if len < 8 {
            return Err(MerkleTreeStorageError::DeserializationError);
        }
        proof {
            lemma_prefix_value(data@.take(8));
        }
        // A supported tree has at most 255 nodes, so only the low byte of the
        // count may be set.
        let mut j: usize = 1;
        while j < 8
            invariant
                1 <= j <= 8,
                len == data@.len() >= 8,
                forall|q: int| 1 <= q < j ==> data@[q] == 0,
            decreases 8 - j,
        {
            if data[j] != 0 {
                proof {
                    assert(data@.take(8)[j as int] != 0);
                    lemma_prefix_value(data@.take(8));
                    if is_valid_encoding(data@) {
                        lemma_small_tree(stored_depth(data@) as nat);
                    }
                }
                return Err(MerkleTreeStorageError::DeserializationError);
            }
            j = j + 1;
        }
        assert(forall|q: int| 1 <= q < 8 ==> data@.take(8)[q] == 0);
        let n = data[0] as usize;
        assert(n == stored_node_count(data@));
        if len < 10 + 32 * n {
            return Err(MerkleTreeStorageError::DeserializationError);
        }
        let max_depth = data[8 + 32 * n];
        let next_leaf_index = data[9 + 32 * n];
        if max_depth < 1 || max_depth > MAX_DEPTH {
            return Err(MerkleTreeStorageError::DeserializationError);
        }
        proof {
            lemma_small_tree(max_depth as nat);
        }
        if n != Self::get_tree_size(max_depth) || next_leaf_index as usize > pow2_usize(max_depth) {
            return Err(MerkleTreeStorageError::DeserializationError);
        }
        let mut nodes: Vec<[u8; 32]> = Vec::new();
        let mut i: usize = 0;
        while i < n
            invariant
                n <= 255,
                len == data@.len() >= 10 + 32 * n,
                nodes@.len() == i <= n,
                forall|q: int| 0 <= q < i ==> #[trigger] nodes@[q]@ == stored_node(data@, q),
            decreases n - i,
        {
            let mut node: [u8; 32] = [0u8; 32];
            let mut b: usize = 0;
            while b < 32
                invariant
                    i < n <= 255,
                    len == data@.len() >= 10 + 32 * n,
                    b <= 32,
                    forall|q: int| 0 <= q < b ==> #[trigger] node@[q] == data@[8 + 32 * i + q],
                decreases 32 - b,
            {
                node[b] = data[8 + 32 * i + b];
                b = b + 1;
            }
            assert(node@ =~= stored_node(data@, i as int));
            nodes.push(node);
            i = i + 1;
        }
        let tree = MerkleTree { nodes, max_depth, next_leaf_index };
        assert(tree.node_values() =~= Seq::new(
            stored_node_count(data@),
            |i: int| stored_node(data@, i),
        ));
        Ok(tree)
    }
}

/// Reading back what was saved gives the same tree: for a well-formed tree
/// and any bytes that follow its persisted form, the buffer is accepted and
/// holds the tree's depth, counter and nodes.
pub proof fn lemma_save_then_load(t: MerkleTree, rest: Seq<u8>)
    requires
        t.wf(),
    ensures
        is_valid_encoding(t.encoding() + rest),
        stored_depth(t.encoding() + rest) == t.max_depth,
        stored_next_leaf_index(t.encoding() + rest) == t.next_leaf_index,
        Seq::new(stored_node_count(t.encoding() + rest), |i: int| stored_node(t.encoding() + rest, i))
            == t.node_values(),
{
    let b = t.encoding() + rest;
    let n = t.nodes@.len();
    lemma_small_tree(t.max_depth as nat);
    lemma_le_bytes_small(n as nat);
    assert(b.take(8) =~= le_bytes(n as nat, 8));
    lemma_prefix_value(b.take(8));
    assert(stored_node_count(b) == n);
    assert forall|i: int| 0 <= i < n implies #[trigger] stored_node(b, i) == t.node_values()[i] by {
        assert forall|q: int| 0 <= q < 32 implies stored_node(b, i)[q] == t.node_values()[i][q] by {
            lemma_node_byte(t.node_values(), i, q);
        }
        assert(stored_node(b, i) =~= t.node_values()[i]);
    }
    assert(Seq::new(stored_node_count(b), |i: int| stored_node(b, i)) =~= t.node_values());
}

} // verus!
