//! A sparse Merkle tree over Keccak-256 built as an explicit tree of nodes.
//!
//! A key is placed by its 256 bits, least significant bit of each byte
//! first; an update rebuilds the branches along the key's path down to a
//! leaf that holds the hash of the value.

use vstd::prelude::*;
use crate::bytes::append_bytes;
use crate::hashing::{keccak256, keccak256_digest};

verus! {

/// A 256-bit hash.
pub type H256 = [u8; 32];

/// A leaf: the hash it holds.
pub struct LeafNode {
    pub hash: H256,
}

/// A branch: its hash and its two children.
pub struct BranchNode {
    pub hash: H256,
    pub left: Box<Node>,
    pub right: Box<Node>,
}

/// A node of the tree.
pub enum Node {
    Leaf(LeafNode),
    Branch(BranchNode),
}

/// The tree.
pub struct SparseMerkleTree {
    pub root: Box<Node>,
}

/// The hash a node carries.
pub open spec fn node_hash(n: Node) -> Seq<u8> {
    match n {
        Node::Leaf(l) => l.hash@,
        Node::Branch(b) => b.hash@,
    }
}

/// Every branch below (and at) `n` carries the hash of its children's
/// hashes, left then right.
pub open spec fn consistent(n: Node) -> bool
    decreases n,
{
    match n {
        Node::Leaf(_) => true,
        Node::Branch(b) => {
            &&& b.hash@ == keccak256(node_hash(*b.left) + node_hash(*b.right))
            &&& consistent(*b.left)
            &&& consistent(*b.right)
        },
    }
}

/// Bit `i` of `key`, least significant bit of each byte first.
pub open spec fn key_bit(key: Seq<u8>, i: int) -> bool {
    (key[i / 8] >> ((i % 8) as u8)) & 1u8 == 1u8
}

/// 32 zero bytes.
pub open spec fn zero32() -> Seq<u8> {
    Seq::new(32, |i: int| 0u8)
}

/// The number of branches on the path of `key` from `n` at depth `d`.
pub open spec fn path_depth(n: Node, key: Seq<u8>, d: int) -> nat
    decreases n,
{
    match n {
        Node::Leaf(_) => 0,
        Node::Branch(b) => 1 + if key_bit(key, d) { path_depth(*b.right, key, d + 1) } else { path_depth(*b.left, key, d + 1) },
    }
}

/// The hash at the end of the path of `key` from `n` at depth `d`.
pub open spec fn path_leaf(n: Node, key: Seq<u8>, d: int) -> Seq<u8>
    decreases n,
{
    match n {
        Node::Leaf(l) => l.hash@,
        Node::Branch(b) => if key_bit(key, d) { path_leaf(*b.right, key, d + 1) } else { path_leaf(*b.left, key, d + 1) },
    }
}

/// Whether, walking down `n` along the path of `k1` from depth `d`, the
/// path of `k2` leaves it at one of the branches met, above depth 256.
pub open spec fn leaves_path(n: Node, k1: Seq<u8>, k2: Seq<u8>, d: int) -> bool
    decreases n,
{
    match n {
        Node::Leaf(_) => false,
        Node::Branch(b) => if d >= 256 {
            false
        } else if key_bit(k1, d) != key_bit(k2, d) {
            true
        } else if key_bit(k1, d) {
            leaves_path(*b.right, k1, k2, d + 1)
        } else {
            leaves_path(*b.left, k1, k2, d + 1)
        },
    }
}

/// Whether the path of `k2` parts from the path of `k1` at some depth from
/// `d` up to 255.
pub open spec fn parts_from(k1: Seq<u8>, k2: Seq<u8>, d: int) -> bool {
    exists|j: int| d <= j < 256 && #[trigger] key_bit(k1, j) != key_bit(k2, j)
}

impl Node {
    /// The hash this node carries.
    pub fn hash(&self) -> (h: H256)
        ensures h@ == node_hash(*self),
    {
        match self {
            Node::Leaf(leaf) => leaf.hash,
            Node::Branch(branch) => branch.hash,
        }
    }

    /// A copy of this node and everything below it.
    pub fn duplicate(&self) -> (r: Node)
        ensures r == *self,
        decreases self,
    {
        match self {
            Node::Leaf(leaf) => Node::Leaf(LeafNode { hash: leaf.hash }),
            Node::Branch(branch) => {
                let left = branch.left.duplicate();
                let right = branch.right.duplicate();
                Node::Branch(BranchNode { hash: branch.hash, left: Box::new(left), right: Box::new(right) })
            },
        }
    }
}

/// Bit `i` of `key`.
fn bit(key: &H256, i: usize) -> (b: bool)
    requires i < 256,
    ensures b == key_bit(key@, i as int),
{
    let byte_index = i / 8;
    let bit_index = (i % 8) as u8;
    (key[byte_index] >> bit_index) & 1 == 1
}

/// The hash of the concatenation of two hashes.
fn hash_pair(left: &H256, right: &H256) -> (h: H256)
    ensures h@ == keccak256(left@ + right@),
{
    let mut data: Vec<u8> = Vec::with_capacity(64);
    append_bytes(&mut data, left.as_slice());
    append_bytes(&mut data, right.as_slice());
    keccak256_digest(&data)
}

/// A leaf holding the all-zero hash.
fn zero_leaf() -> (n: Node)
    ensures n matches Node::Leaf(l) && l.hash@ == zero32(),
{
    let h = [0u8; 32];
    assert(h@ =~= zero32());
    Node::Leaf(LeafNode { hash: h })
}

impl SparseMerkleTree {
    /// A tree whose root is a leaf holding the hash of no bytes.
    pub fn new() -> (t: Self)
        ensures
            node_hash(*t.root) == keccak256(Seq::<u8>::empty()),
            *t.root matches Node::Leaf(_),
    {
        let empty: Vec<u8> = Vec::new();
        let empty_hash = keccak256_digest(&empty);
        SparseMerkleTree { root: Box::new(Node::Leaf(LeafNode { hash: empty_hash })) }
    }

    /// Stores the hash of `value` at the leaf of `key`.
    pub fn update(&mut self, key: H256, value: H256)
        ensures
            consistent(*old(self).root) ==> consistent(*final(self).root),
            path_depth(*final(self).root, key@, 0) == 256,
            path_leaf(*final(self).root, key@, 0) == keccak256(value@),
            forall|k2: Seq<u8>| #[trigger] leaves_path(*old(self).root, key@, k2, 0)
                ==> path_leaf(*final(self).root, k2, 0) == path_leaf(*old(self).root, k2, 0),
            forall|k2: Seq<u8>| parts_from(key@, k2, 0) && !leaves_path(*old(self).root, key@, k2, 0)
                ==> #[trigger] path_leaf(*final(self).root, k2, 0) == zero32(),
    {
        let root = Self::update_recursive(&self.root, key, value, 0);
        self.root = root;
    }

    /// The root hash.
    pub fn root(&self) -> (h: H256)
        ensures h@ == node_hash(*self.root),
    {
        self.root.hash()
    }

    fn update_recursive(node: &Box<Node>, key: H256, value: H256, depth: usize) -> (r: Box<Node>)
        requires depth <= 256,
        ensures
            consistent(**node) ==> consistent(*r),
            path_depth(*r, key@, depth as int) == 256 - depth,
            path_leaf(*r, key@, depth as int) == keccak256(value@),
            depth < 256 ==> *r matches Node::Branch(_),
            forall|k2: Seq<u8>| #[trigger] leaves_path(**node, key@, k2, depth as int)
                ==> path_leaf(*r, k2, depth as int) == path_leaf(**node, k2, depth as int),
            forall|k2: Seq<u8>| parts_from(key@, k2, depth as int) && !leaves_path(**node, key@, k2, depth as int)
                ==> #[trigger] path_leaf(*r, k2, depth as int) == zero32(),
        decreases 256 - depth,
    {
        if depth == 256 {
            let h = keccak256_digest(value.as_slice());
            return Box::new(Node::Leaf(LeafNode { hash: h }));
        }
        match &**node {
            Node::Leaf(_) => {
                let start = Box::new(zero_leaf());
                assert(consistent(*start));
                let new_node = Self::update_recursive(&start, key, value, depth + 1);
                let ghost nn = *new_node;
                let goes_right = bit(&key, depth);
                let (left, right) = if goes_right {
                    (Box::new(zero_leaf()), new_node)
                } else {
                    (new_node, Box::new(zero_leaf()))
                };
                assert(consistent(*left) && consistent(*right));
                let h = hash_pair(&left.hash(), &right.hash());
                let res = Box::new(Node::Branch(BranchNode { hash: h, left, right }));
                proof {
                    assert forall|k2: Seq<u8>| parts_from(key@, k2, depth as int) && !leaves_path(**node, key@, k2, depth as int)
                        implies #[trigger] path_leaf(*res, k2, depth as int) == zero32() by {
                        reveal_with_fuel(path_leaf, 2);
                        if key_bit(key@, depth as int) == key_bit(k2, depth as int) {
                            let j = choose|j: int| depth <= j < 256 && #[trigger] key_bit(key@, j) != key_bit(k2, j);
                            assert(parts_from(key@, k2, depth + 1));
                            assert(!leaves_path(*start, key@, k2, depth + 1));
                            assert(path_leaf(nn, k2, depth + 1) == zero32());
                            assert(path_leaf(*res, k2, depth as int) == path_leaf(nn, k2, depth + 1));
                        }
                    };
                }
                res
            },
            Node::Branch(branch) => {
                let goes_right = bit(&key, depth);
                let (left, right) = if goes_right {
                    (Box::new(branch.left.duplicate()), Self::update_recursive(&branch.right, key, value, depth + 1))
                } else {
                    (Self::update_recursive(&branch.left, key, value, depth + 1), Box::new(branch.right.duplicate()))
                };
                let ghost nl = *left;
                let ghost nr = *right;
                let h = hash_pair(&left.hash(), &right.hash());
                let res = Box::new(Node::Branch(BranchNode { hash: h, left, right }));
                proof {
                    assert forall|k2: Seq<u8>| parts_from(key@, k2, depth as int) && !leaves_path(**node, key@, k2, depth as int)
                        implies #[trigger] path_leaf(*res, k2, depth as int) == zero32() by {
                        let j = choose|j: int| depth <= j < 256 && #[trigger] key_bit(key@, j) != key_bit(k2, j);
                        assert(key_bit(key@, depth as int) == key_bit(k2, depth as int));
                        assert(parts_from(key@, k2, depth + 1));
                        if goes_right {
                            assert(!leaves_path(*branch.right, key@, k2, depth + 1));
                            assert(path_leaf(nr, k2, depth + 1) == zero32());
                        } else {
                            assert(!leaves_path(*branch.left, key@, k2, depth + 1));
                            assert(path_leaf(nl, k2, depth + 1) == zero32());
                        }
                    };
                    assert forall|k2: Seq<u8>| #[trigger] leaves_path(**node, key@, k2, depth as int) implies
                        path_leaf(*res, k2, depth as int) == path_leaf(**node, k2, depth as int) by {
                        if key_bit(key@, depth as int) == key_bit(k2, depth as int) {
                            if goes_right {
                                assert(leaves_path(*branch.right, key@, k2, depth + 1));
                            } else {
                                assert(leaves_path(*branch.left, key@, k2, depth + 1));
                            }
                        }
                    };
                }
                res
            },
        }
    }
}

} // verus!
