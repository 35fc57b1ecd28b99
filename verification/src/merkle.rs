//! A sparse Merkle tree over BLAKE2b-512, used to vouch for a snapshot of
//! the state.
//!
//! A key is placed by the 256 bits of the first half of its digest, most
//! significant bit first. Every update builds a full-depth path of internal
//! nodes down to a leaf; nodes are kept in a cache keyed by their own hash,
//! and the all-zero hash stands for the empty subtree.

use vstd::prelude::*;
use crate::byte_map::{
    entries_map, keys_distinct, lemma_entries_map_dom, lemma_entries_map_finite,
    lemma_entries_map_push_fresh, lemma_entries_map_update, lemma_entries_map_value,
};
use crate::bytes::{append_bytes, copy_bytes};
use crate::codec::{le32, u32_to_le_bytes};
use crate::hashing::{blake2b512, blake2b512_digest};
use crate::store::BatchLike;

verus! {

/// Size of a node hash in bytes.
pub const HASH_SIZE: usize = 64;

/// Above this many cached nodes, writing the updates out empties the cache.
pub const MAX_CACHE_SIZE: usize = 10000;

/// A node hash.
pub type Hash = [u8; HASH_SIZE];

/// What a node is, in terms of byte strings.
pub enum NodeModel {
    Internal(Seq<u8>, Seq<u8>),
    Leaf(Seq<u8>, Seq<u8>),
    Empty,
}

/// A node of the tree.
#[derive(Debug, Clone)]
pub enum Node {
    /// Internal node with the hashes of its two children.
    Internal { left: Hash, right: Hash },
    /// Leaf with the key and the hash of its value.
    Leaf { key: Vec<u8>, value_hash: Hash },
    /// The empty subtree.
    Empty,
}

impl Node {
    pub open spec fn model(&self) -> NodeModel {
        match self {
            Node::Internal { left, right } => NodeModel::Internal(left@, right@),
            Node::Leaf { key, value_hash } => NodeModel::Leaf(key@, value_hash@),
            Node::Empty => NodeModel::Empty,
        }
    }

    /// A copy of this node.
    pub fn duplicate(&self) -> (r: Node)
        ensures r.model() == self.model(),
    {
        match self {
            Node::Internal { left, right } => Node::Internal { left: *left, right: *right },
            Node::Leaf { key, value_hash } => Node::Leaf { key: copy_bytes(key), value_hash: *value_hash },
            Node::Empty => Node::Empty,
        }
    }
}

/// The all-zero hash, which stands for the empty subtree.
pub open spec fn zero_hash() -> Seq<u8> {
    Seq::new(64, |i: int| 0u8)
}

/// The bytes `leaf` that open the hashed form of a leaf.
pub open spec fn leaf_tag() -> Seq<u8> {
    seq![108u8, 101u8, 97u8, 102u8]
}

/// The key under which the root is written out: `merkle_root`.
pub open spec fn merkle_root_key() -> Seq<u8> {
    seq![109u8, 101u8, 114u8, 107u8, 108u8, 101u8, 95u8, 114u8, 111u8, 111u8, 116u8]
}

/// The 32 bytes that place `key` in the tree.
pub open spec fn key_hash(key: Seq<u8>) -> Seq<u8> {
    blake2b512(key).subrange(0, 32)
}

/// The hash of an internal node with these children.
pub open spec fn children_hash(left: Seq<u8>, right: Seq<u8>) -> Seq<u8> {
    blake2b512(left + right)
}

/// The hash of a node.
pub open spec fn node_hash(n: NodeModel) -> Seq<u8> {
    match n {
        NodeModel::Internal(l, r) => children_hash(l, r),
        NodeModel::Leaf(k, vh) => blake2b512(leaf_tag() + k + vh),
        NodeModel::Empty => zero_hash(),
    }
}

/// Bit `i` of `h`, counting from the most significant bit of the first byte.
pub open spec fn bit_of(h: Seq<u8>, i: int) -> bool {
    (h[i / 8] >> ((7 - i % 8) as u8)) & 1u8 == 1u8
}

/// The path of `key` from the root: `true` goes right.
pub open spec fn key_path(key: Seq<u8>) -> Seq<bool> {
    Seq::new(256, |i: int| bit_of(key_hash(key), i))
}

/// Every cached node is stored under its own hash.
pub open spec fn hash_consistent(c: Map<Seq<u8>, NodeModel>) -> bool {
    forall|h: Seq<u8>| #[trigger] c.contains_key(h) ==> node_hash(c[h]) == h
}

/// The node that hash `h` names in cache `c`.
pub open spec fn node_at(c: Map<Seq<u8>, NodeModel>, h: Seq<u8>) -> NodeModel {
    if h == zero_hash() {
        NodeModel::Empty
    } else if c.contains_key(h) {
        c[h]
    } else {
        NodeModel::Empty
    }
}

/// The children of an internal node; two empty subtrees otherwise.
pub open spec fn children_of(n: NodeModel) -> (Seq<u8>, Seq<u8>) {
    match n {
        NodeModel::Internal(l, r) => (l, r),
        _ => (zero_hash(), zero_hash()),
    }
}

/// Storing `key` with value hash `vh` under the subtree `h` at depth `d`:
/// the cache afterwards and the new hash of the subtree.
pub open spec fn tree_update(c: Map<Seq<u8>, NodeModel>, h: Seq<u8>, path: Seq<bool>, d: nat, key: Seq<u8>, vh: Seq<u8>)
    -> (Map<Seq<u8>, NodeModel>, Seq<u8>)
    decreases path.len() - d,
{
    if d >= path.len() {
        let n = NodeModel::Leaf(key, vh);
        (c.insert(node_hash(n), n), node_hash(n))
    } else {
        let (l, r) = children_of(node_at(c, h));
        if path[d as int] {
            let (c1, nr) = tree_update(c, r, path, d + 1, key, vh);
            let n = NodeModel::Internal(l, nr);
            (c1.insert(node_hash(n), n), node_hash(n))
        } else {
            let (c1, nl) = tree_update(c, l, path, d + 1, key, vh);
            let n = NodeModel::Internal(nl, r);
            (c1.insert(node_hash(n), n), node_hash(n))
        }
    }
}

/// Removing the leaf on `path` from the subtree `h` at depth `d`: the cache
/// afterwards and the new hash of the subtree. An internal node whose
/// children both become empty becomes empty itself.
pub open spec fn tree_delete(c: Map<Seq<u8>, NodeModel>, h: Seq<u8>, path: Seq<bool>, d: nat)
    -> (Map<Seq<u8>, NodeModel>, Seq<u8>)
    decreases path.len() - d,
{
    match node_at(c, h) {
        NodeModel::Empty => (c, h),
        NodeModel::Leaf(k, _) => {
            if d <= 256 && key_path(k).subrange(0, d as int) == path.subrange(0, d as int) {
                (c, zero_hash())
            } else {
                (c, h)
            }
        },
        NodeModel::Internal(l, r) => {
            if d >= path.len() {
                (c, h)
            } else if path[d as int] {
                let (c1, nr) = tree_delete(c, r, path, d + 1);
                if l == zero_hash() && nr == zero_hash() {
                    (c1, zero_hash())
                } else {
                    let n = NodeModel::Internal(l, nr);
                    (c1.insert(node_hash(n), n), node_hash(n))
                }
            } else {
                let (c1, nl) = tree_delete(c, l, path, d + 1);
                if nl == zero_hash() && r == zero_hash() {
                    (c1, zero_hash())
                } else {
                    let n = NodeModel::Internal(nl, r);
                    (c1.insert(node_hash(n), n), node_hash(n))
                }
            }
        },
    }
}

/// The siblings met walking down `path` from `h` at depth `d`, for as long
/// as the walk finds internal nodes.
pub open spec fn proof_path(c: Map<Seq<u8>, NodeModel>, h: Seq<u8>, path: Seq<bool>, d: nat) -> Seq<Seq<u8>>
    decreases path.len() - d,
{
    if d >= path.len() || h == zero_hash() {
        Seq::empty()
    } else {
        match node_at(c, h) {
            NodeModel::Internal(l, r) => {
                if path[d as int] {
                    seq![l] + proof_path(c, r, path, d + 1)
                } else {
                    seq![r] + proof_path(c, l, path, d + 1)
                }
            },
            _ => Seq::empty(),
        }
    }
}

/// The hash where that walk stops.
pub open spec fn walk_end(c: Map<Seq<u8>, NodeModel>, h: Seq<u8>, path: Seq<bool>, d: nat) -> Seq<u8>
    decreases path.len() - d,
{
    if d >= path.len() || h == zero_hash() {
        h
    } else {
        match node_at(c, h) {
            NodeModel::Internal(l, r) => {
                if path[d as int] {
                    walk_end(c, r, path, d + 1)
                } else {
                    walk_end(c, l, path, d + 1)
                }
            },
            _ => h,
        }
    }
}

/// The hash obtained by combining `h`, the hash at the bottom of the walk,
/// with the siblings `sibs` (the first belongs to depth `d`), going up.
pub open spec fn fold_up(path: Seq<bool>, sibs: Seq<Seq<u8>>, d: nat, h: Seq<u8>) -> Seq<u8>
    decreases sibs.len(),
{
    if sibs.len() == 0 {
        h
    } else {
        let child = fold_up(path, sibs.drop_first(), d + 1, h);
        if path[d as int] {
            children_hash(sibs[0], child)
        } else {
            children_hash(child, sibs[0])
        }
    }
}

/// The hash of the leaf for `key` holding `value`.
pub open spec fn leaf_hash_of(key: Seq<u8>, value: Seq<u8>) -> Seq<u8> {
    node_hash(NodeModel::Leaf(key, blake2b512(value)))
}

/// The views of a list of hashes.
pub open spec fn hash_views(s: Seq<Hash>) -> Seq<Seq<u8>> {
    s.map_values(|h: Hash| h@)
}

/// The record written out for a cached node, if any.
pub open spec fn node_record(h: Seq<u8>, n: NodeModel) -> Seq<(Seq<u8>, Seq<u8>)> {
    match n {
        NodeModel::Internal(l, r) => seq![(h, l + r)],
        NodeModel::Leaf(k, vh) => seq![(h, le32(k.len() as u32) + k + vh)],
        NodeModel::Empty => Seq::empty(),
    }
}

/// The records written out for a list of cached nodes, in order.
pub open spec fn node_records(s: Seq<(Seq<u8>, NodeModel)>) -> Seq<(Seq<u8>, Seq<u8>)>
    decreases s.len(),
{
    if s.len() == 0 {
        Seq::empty()
    } else {
        node_records(s.drop_last()) + node_record(s.last().0, s.last().1)
    }
}

/// The views of the cache entries.
pub open spec fn cache_views(s: Seq<(Hash, Node)>) -> Seq<(Seq<u8>, NodeModel)> {
    s.map_values(|e: (Hash, Node)| (e.0@, e.1.model()))
}

/// The cache of nodes, keyed by hash.
pub struct NodeCache {
    entries: Vec<(Hash, Node)>,
}

impl View for NodeCache {
    type V = Map<Seq<u8>, NodeModel>;

    closed spec fn view(&self) -> Map<Seq<u8>, NodeModel> {
        entries_map(cache_views(self.entries@))
    }
}

impl NodeCache {
    /// The cached entries in the order they were first stored.
    pub closed spec fn entry_seq(&self) -> Seq<(Seq<u8>, NodeModel)> {
        cache_views(self.entries@)
    }

    #[verifier::type_invariant]
    pub closed spec fn wf(&self) -> bool {
        &&& keys_distinct(cache_views(self.entries@))
        &&& hash_consistent(entries_map(cache_views(self.entries@)))
    }

    /// Every cached node sits under its own hash, and the cache is the map
    /// its entries denote.
    pub proof fn lemma_consistent(&self)
        requires self.wf(),
        ensures
            hash_consistent(self@),
            self@ == entries_map(self.entry_seq()),
            self@.dom().finite(),
            self@.dom().len() == self.entry_seq().len(),
    {
        lemma_entries_map_finite(self.entry_seq());
    }

    /// An empty cache.
    pub fn new() -> (c: Self)
        ensures c@ == Map::<Seq<u8>, NodeModel>::empty(), c.entry_seq() == Seq::<(Seq<u8>, NodeModel)>::empty(),
    {
        let c = NodeCache { entries: Vec::new() };
        assert(cache_views(c.entries@) =~= Seq::<(Seq<u8>, NodeModel)>::empty());
        c
    }

    /// The number of cached nodes.
    pub fn len(&self) -> (n: usize)
        ensures n == self@.dom().len(),
    {
        proof { use_type_invariant(self); self.lemma_consistent(); }
        self.entries.len()
    }

    /// Empties the cache.
    pub fn clear(&mut self)
        ensures final(self)@ == Map::<Seq<u8>, NodeModel>::empty(),
            final(self).entry_seq() == Seq::<(Seq<u8>, NodeModel)>::empty(),
    {
        *self = NodeCache::new();
    }

    /// The position of `h` among the entries.
    fn find(&self, h: &Hash) -> (r: Option<usize>)
        ensures
            r matches Some(i) ==> i < self.entries@.len() && self.entries@[i as int].0@ == h@,
            r is Some <==> self@.contains_key(h@),
    {
        proof { use_type_invariant(self); }
        let mut i: usize = 0;
        while i < self.entries.len()
            invariant
                self.wf(),
                i <= self.entries@.len(),
                forall|j: int| 0 <= j < i ==> self.entries@[j].0@ != h@,
            decreases self.entries@.len() - i,
        {
            if hash_eq(&self.entries[i].0, h) {
                proof { lemma_entries_map_value(cache_views(self.entries@), i as int); }
                return Some(i);
            }
            i = i + 1;
        }
        proof {
            let s = cache_views(self.entries@);
            lemma_entries_map_dom(s, h@);
            if entries_map(s).contains_key(h@) {
                let j = choose|j: int| 0 <= j < s.len() && s[j].0 == h@;
                assert(self.entries@[j].0@ == h@);
            }
        }
        None
    }

    /// A copy of the node stored under `h`.
    pub fn get(&self, h: &Hash) -> (r: Option<Node>)
        ensures
            r is Some <==> self@.contains_key(h@),
            r matches Some(n) ==> n.model() == self@[h@],
    {
        match self.find(h) {
            Some(i) => {
                proof {
                    use_type_invariant(self);
                    lemma_entries_map_value(cache_views(self.entries@), i as int);
                }
                Some(self.entries[i].1.duplicate())
            },
            None => None,
        }
    }

    /// Stores `n` under its hash `h`.
    pub fn insert(&mut self, h: Hash, n: Node)
        requires node_hash(n.model()) == h@,
        ensures final(self)@ == old(self)@.insert(h@, n.model()),
    {
        proof { use_type_invariant(&*self); }
        let ghost hv = h@;
        let ghost nm = n.model();
        match self.find(&h) {
            Some(i) => {
                let ghost s = cache_views(self.entries@);
                proof { lemma_entries_map_update(s, i as int, nm); }
                let mut entries = Vec::new();
                std::mem::swap(&mut entries, &mut self.entries);
                entries.set(i, (h, n));
                assert(cache_views(entries@) =~= s.update(i as int, (s[i as int].0, nm)));
                proof { assert_consistent_insert(entries_map(s), hv, nm); }
                self.entries = entries;
            },
            None => {
                let ghost s = cache_views(self.entries@);
                proof { lemma_entries_map_push_fresh(s, hv, nm); }
                let mut entries = Vec::new();
                std::mem::swap(&mut entries, &mut self.entries);
                entries.push((h, n));
                assert(cache_views(entries@) =~= s.push((hv, nm)));
                proof { assert_consistent_insert(entries_map(s), hv, nm); }
                self.entries = entries;
            },
        }
    }

    /// The records to write out for the cached nodes, in order.
    pub fn records(&self) -> (out: Vec<(Vec<u8>, Vec<u8>)>)
        ensures crate::byte_map::entry_views(out@) == node_records(self.entry_seq()),
    {
        let mut out: Vec<(Vec<u8>, Vec<u8>)> = Vec::new();
        let mut i: usize = 0;
        while i < self.entries.len()
            invariant
                i <= self.entries@.len(),
                crate::byte_map::entry_views(out@) == node_records(cache_views(self.entries@).subrange(0, i as int)),
            decreases self.entries@.len() - i,
        {
            let ghost before = out@;
            let ghost s = cache_views(self.entries@);
            assert(s.subrange(0, i + 1).drop_last() =~= s.subrange(0, i as int));
            let h = &self.entries[i].0;
            match &self.entries[i].1 {
                Node::Internal { left, right } => {
                    let mut data: Vec<u8> = Vec::new();
                    append_bytes(&mut data, left);
                    append_bytes(&mut data, right);
                    out.push((copy_bytes(h), data));
                },
                Node::Leaf { key, value_hash } => {
                    let mut data: Vec<u8> = Vec::new();
                    let len4 = u32_to_le_bytes(key.len() as u32);
                    append_bytes(&mut data, &len4);
                    append_bytes(&mut data, key);
                    append_bytes(&mut data, value_hash);
                    out.push((copy_bytes(h), data));
                },
                Node::Empty => {},
            }
            assert(crate::byte_map::entry_views(out@) =~= node_records(s.subrange(0, i + 1)));
            i = i + 1;
        }
        assert(cache_views(self.entries@).subrange(0, i as int) =~= cache_views(self.entries@));
        out
    }
}

proof fn assert_consistent_insert(m: Map<Seq<u8>, NodeModel>, h: Seq<u8>, n: NodeModel)
    requires hash_consistent(m), node_hash(n) == h,
    ensures hash_consistent(m.insert(h, n)),
{
}

/// Whether two hashes are equal.
pub fn hash_eq(a: &Hash, b: &Hash) -> (r: bool)
    ensures r == (a@ == b@),
{
    crate::bytes::bytes_eq(a.as_slice(), b.as_slice())
}

/// Whether `h` is the all-zero hash.
pub fn is_zero_hash(h: &Hash) -> (r: bool)
    ensures r == (h@ == zero_hash()),
{
    let mut i: usize = 0;
    while i < 64
        invariant
            i <= 64,
            h@.len() == 64,
            forall|j: int| 0 <= j < i ==> h@[j] == 0u8,
        decreases 64 - i,
    {
        if h[i] != 0 {
            assert(h@[i as int] != zero_hash()[i as int]);
            return false;
        }
        i = i + 1;
    }
    assert(h@ =~= zero_hash());
    true
}

/// The all-zero hash.
pub fn zero() -> (h: Hash)
    ensures h@ == zero_hash(),
{
    let h = [0u8; 64];
    assert(h@ =~= zero_hash());
    h
}

/// The views of the recorded updates.
pub open spec fn pending_views(s: Seq<(Vec<u8>, Option<Vec<u8>>)>) -> Seq<(Seq<u8>, Option<Seq<u8>>)> {
    s.map_values(|e: (Vec<u8>, Option<Vec<u8>>)| (e.0@, crate::byte_map::opt_view(e.1)))
}

/// Sparse Merkle tree for state verification.
pub struct SparseMerkleTree {
    root: Hash,
    nodes: NodeCache,
    pending_updates: Vec<(Vec<u8>, Option<Vec<u8>>)>,
}

impl SparseMerkleTree {
    /// The root hash.
    pub closed spec fn root_view(&self) -> Seq<u8> {
        self.root@
    }

    /// The cached nodes by hash.
    pub closed spec fn cache(&self) -> Map<Seq<u8>, NodeModel> {
        self.nodes@
    }

    /// The cached nodes in the order they were first stored.
    pub closed spec fn cache_order(&self) -> Seq<(Seq<u8>, NodeModel)> {
        self.nodes.entry_seq()
    }

    /// The updates recorded since they were last written out: the latest
    /// value of each key, or `None` for a deletion.
    pub closed spec fn pending(&self) -> Map<Seq<u8>, Option<Seq<u8>>> {
        entries_map(pending_views(self.pending_updates@))
    }

    /// An empty tree.
    pub fn new() -> (t: Self)
        ensures
            t.root_view() == zero_hash(),
            t.cache() == Map::<Seq<u8>, NodeModel>::empty(),
            t.pending() == Map::<Seq<u8>, Option<Seq<u8>>>::empty(),
    {
        SparseMerkleTree::with_root(zero())
    }

    /// A tree with the given root and nothing cached.
    pub fn with_root(root: Hash) -> (t: Self)
        ensures
            t.root_view() == root@,
            t.cache() == Map::<Seq<u8>, NodeModel>::empty(),
            t.pending() == Map::<Seq<u8>, Option<Seq<u8>>>::empty(),
    {
        let t = SparseMerkleTree { root, nodes: NodeCache::new(), pending_updates: Vec::new() };
        assert(pending_views(t.pending_updates@) =~= Seq::<(Seq<u8>, Option<Seq<u8>>)>::empty());
        t
    }

    /// The tree whose root was stored as `stored`: a stored value of any
    /// length but 64 bytes, or none, gives the empty root.
    pub fn from_stored_root(stored: Option<Vec<u8>>) -> (t: Self)
        ensures
            t.root_view() == (match stored {
                Some(b) => if b@.len() == 64 { b@ } else { zero_hash() },
                None => zero_hash(),
            }),
            t.cache() == Map::<Seq<u8>, NodeModel>::empty(),
            t.pending() == Map::<Seq<u8>, Option<Seq<u8>>>::empty(),
    {
        match stored {
            Some(b) => {
                if b.len() == 64 {
                    let mut root = zero();
                    let mut i: usize = 0;
                    while i < 64
                        invariant
                            i <= 64,
                            b@.len() == 64,
                            root@.len() == 64,
                            forall|j: int| 0 <= j < i ==> root@[j] == b@[j],
                        decreases 64 - i,
                    {
                        root[i] = b[i];
                        i = i + 1;
                    }
                    assert(root@ =~= b@);
                    SparseMerkleTree::with_root(root)
                } else {
                    SparseMerkleTree::new()
                }
            },
            None => SparseMerkleTree::new(),
        }
    }

    /// The root hash.
    pub fn root(&self) -> (r: Hash)
        ensures r@ == self.root_view(),
    {
        self.root
    }

    /// Stores `value` under `key`.
    pub fn update(&mut self, key: &[u8], value: &[u8])
        ensures
            (final(self).cache(), final(self).root_view())
                == tree_update(old(self).cache(), old(self).root_view(), key_path(key@), 0, key@, blake2b512(value@)),
            final(self).pending() == old(self).pending().insert(key@, Some(value@)),
            hash_consistent(final(self).cache()),
    {
        let path = key_to_path(key);
        let value_hash = hash_value(value);
        let root = self.root;
        let new_root = self.update_node(root, &path, 0, copy_bytes(key), value_hash);
        self.root = new_root;
        self.record(key, Some(copy_bytes(value)));
        proof { use_type_invariant(&self.nodes); self.nodes.lemma_consistent(); }
    }

    /// Removes `key`.
    pub fn delete(&mut self, key: &[u8])
        ensures
            (final(self).cache(), final(self).root_view())
                == tree_delete(old(self).cache(), old(self).root_view(), key_path(key@), 0),
            final(self).pending() == old(self).pending().insert(key@, None),
            hash_consistent(final(self).cache()),
    {
        let path = key_to_path(key);
        let root = self.root;
        let new_root = self.delete_node(root, &path, 0);
        self.root = new_root;
        self.record(key, None);
        proof { use_type_invariant(&self.nodes); self.nodes.lemma_consistent(); }
    }

    fn record(&mut self, key: &[u8], value: Option<Vec<u8>>)
        ensures
            final(self).pending() == old(self).pending().insert(key@, crate::byte_map::opt_view(value)),
            final(self).root == old(self).root,
            final(self).nodes == old(self).nodes,
    {
        let ghost before = pending_views(self.pending_updates@);
        let ghost v = crate::byte_map::opt_view(value);
        self.pending_updates.push((copy_bytes(key), value));
        assert(pending_views(self.pending_updates@).drop_last() =~= before);
    }

    /// Writes the root and every cached node to `batch`, then forgets the
    /// recorded updates; a cache above [`MAX_CACHE_SIZE`] nodes is emptied.
    pub fn write_updates_to_batch<B: BatchLike>(&mut self, batch: &mut B)
        ensures
            final(batch).puts() == old(batch).puts() + seq![(merkle_root_key(), old(self).root_view())]
                + node_records(old(self).cache_order()),
            final(self).root_view() == old(self).root_view(),
            final(self).pending() == Map::<Seq<u8>, Option<Seq<u8>>>::empty(),
            final(self).cache() == (if old(self).cache().dom().len() > MAX_CACHE_SIZE {
                Map::<Seq<u8>, NodeModel>::empty()
            } else {
                old(self).cache()
            }),
            hash_consistent(final(self).cache()),
    {
        let root_key: [u8; 11] = [109, 101, 114, 107, 108, 101, 95, 114, 111, 111, 116];
        assert(root_key@ =~= merkle_root_key());
        batch.put(root_key.as_slice(), self.root.as_slice());
        let records = self.nodes.records();
        let ghost start = batch.puts();
        let ghost recs = crate::byte_map::entry_views(records@);
        let mut i: usize = 0;
        while i < records.len()
            invariant
                i <= records@.len(),
                recs == crate::byte_map::entry_views(records@),
                batch.puts() == start + recs.subrange(0, i as int),
            decreases records@.len() - i,
        {
            batch.put(&records[i].0, &records[i].1);
            assert(start + recs.subrange(0, i + 1) =~= (start + recs.subrange(0, i as int)).push(recs[i as int]));
            i = i + 1;
        }
        assert(recs.subrange(0, i as int) =~= recs);
        self.pending_updates = Vec::new();
        assert(pending_views(self.pending_updates@) =~= Seq::<(Seq<u8>, Option<Seq<u8>>)>::empty());
        if self.nodes.len() > MAX_CACHE_SIZE {
            self.nodes.clear();
        }
        proof { use_type_invariant(&self.nodes); self.nodes.lemma_consistent(); }
    }

    /// The siblings along the path of `key`, from the root down.
    pub fn generate_proof(&self, key: &[u8]) -> (proof: Vec<Hash>)
        ensures
            hash_views(proof@) == proof_path(self.cache(), self.root_view(), key_path(key@), 0),
            hash_consistent(self.cache()),
    {
        let path = key_to_path(key);
        let mut proof: Vec<Hash> = Vec::new();
        assert(hash_views(proof@) =~= Seq::<Seq<u8>>::empty());
        self.generate_proof_internal(self.root, &path, 0, &mut proof);
        assert(hash_views(proof@) =~= proof_path(self.cache(), self.root_view(), key_path(key@), 0));
        proof { use_type_invariant(&self.nodes); self.nodes.lemma_consistent(); }
        proof
    }

    /// Whether `proof` shows `key` holding `value` under `root`: the leaf
    /// hash, combined with the first 256 siblings from the bottom up, must
    /// give `root`.
    pub fn verify_proof(key: &[u8], value: &[u8], proof: &[Hash], root: &Hash) -> (r: bool)
        ensures
            r == (proof@.len() >= 256 && fold_up(key_path(key@), hash_views(proof@).subrange(0, 256), 0,
                leaf_hash_of(key@, value@)) == root@),
    {
        let path = key_to_path(key);
        let value_hash = hash_value(value);
        let leaf = Node::Leaf { key: copy_bytes(key), value_hash };
        let leaf_hash = hash_node(&leaf);
        verify_proof_internal(&path, leaf_hash, proof, root)
    }

    /// A copy of the node that `h` names.
    fn get_node(&self, h: &Hash) -> (n: Node)
        ensures n.model() == node_at(self.nodes@, h@),
    {
        if is_zero_hash(h) {
            return Node::Empty;
        }
        match self.nodes.get(h) {
            Some(n) => n,
            None => Node::Empty,
        }
    }

    fn update_node(&mut self, node_hash: Hash, path: &[bool], depth: usize, key: Vec<u8>, value_hash: Hash) -> (r: Hash)
        requires depth <= old(self).nodes@.len() + path@.len(), depth <= path@.len(),
        ensures
            (final(self).nodes@, r@) == tree_update(old(self).nodes@, node_hash@, path@, depth as nat, key@, value_hash@),
            final(self).root == old(self).root,
            final(self).pending_updates == old(self).pending_updates,
        decreases path@.len() - depth,
    {
        if depth == path.len() {
            let leaf = Node::Leaf { key, value_hash };
            let leaf_hash = hash_node(&leaf);
            self.nodes.insert(leaf_hash, leaf);
            return leaf_hash;
        }
        let (left_hash, right_hash) = match self.get_node(&node_hash) {
            Node::Internal { left, right } => (left, right),
            _ => (zero(), zero()),
        };
        let (new_left, new_right) = if path[depth] {
            let nr = self.update_node(right_hash, path, depth + 1, key, value_hash);
            (left_hash, nr)
        } else {
            let nl = self.update_node(left_hash, path, depth + 1, key, value_hash);
            (nl, right_hash)
        };
        let internal = Node::Internal { left: new_left, right: new_right };
        let internal_hash = hash_node(&internal);
        self.nodes.insert(internal_hash, internal);
        internal_hash
    }

    fn delete_node(&mut self, node_hash: Hash, path: &[bool], depth: usize) -> (r: Hash)
        requires depth <= path@.len(), path@.len() == 256,
        ensures
            (final(self).nodes@, r@) == tree_delete(old(self).nodes@, node_hash@, path@, depth as nat),
            final(self).root == old(self).root,
            final(self).pending_updates == old(self).pending_updates,
        decreases path@.len() - depth,
    {
        match self.get_node(&node_hash) {
            Node::Empty => node_hash,
            Node::Leaf { key, .. } => {
                let leaf_path = key_to_path(&key);
                if prefix_eq(&leaf_path, path, depth) {
                    zero()
                } else {
                    node_hash
                }
            },
            Node::Internal { left, right } => {
                if depth >= path.len() {
                    return node_hash;
                }
                let (new_left, new_right) = if path[depth] {
                    let nr = self.delete_node(right, path, depth + 1);
                    (left, nr)
                } else {
                    let nl = self.delete_node(left, path, depth + 1);
                    (nl, right)
                };
                if is_zero_hash(&new_left) && is_zero_hash(&new_right) {
                    zero()
                } else {
                    let internal = Node::Internal { left: new_left, right: new_right };
                    let internal_hash = hash_node(&internal);
                    self.nodes.insert(internal_hash, internal);
                    internal_hash
                }
            },
        }
    }

    fn generate_proof_internal(&self, node_hash: Hash, path: &[bool], depth: usize, proof: &mut Vec<Hash>)
        requires depth <= path@.len(),
        ensures hash_views(final(proof)@) == hash_views(old(proof)@) + proof_path(self.nodes@, node_hash@, path@, depth as nat),
        decreases path@.len() - depth,
    {
        if depth >= path.len() || is_zero_hash(&node_hash) {
            assert(hash_views(proof@) =~= hash_views(proof@) + Seq::<Seq<u8>>::empty());
            return;
        }
        match self.get_node(&node_hash) {
            Node::Internal { left, right } => {
                let ghost before = hash_views(proof@);
                if path[depth] {
                    proof.push(left);
                    assert(hash_views(proof@) =~= before + seq![left@]);
                    self.generate_proof_internal(right, path, depth + 1, proof);
                    assert(hash_views(proof@) =~= before + (seq![left@] + proof_path(self.nodes@, right@, path@, (depth + 1) as nat)));
                } else {
                    proof.push(right);
                    assert(hash_views(proof@) =~= before + seq![right@]);
                    self.generate_proof_internal(left, path, depth + 1, proof);
                    assert(hash_views(proof@) =~= before + (seq![right@] + proof_path(self.nodes@, left@, path@, (depth + 1) as nat)));
                }
            },
            _ => {
                assert(hash_views(proof@) =~= hash_views(proof@) + Seq::<Seq<u8>>::empty());
            },
        }
    }
}

/// Whether the first `n` entries of `a` and `b` agree.
fn prefix_eq(a: &Vec<bool>, b: &[bool], n: usize) -> (r: bool)
    requires n <= b@.len(),
    ensures r == (n <= a@.len() && a@.subrange(0, n as int) == b@.subrange(0, n as int)),
{
    if n > a.len() {
        return false;
    }
    let mut i: usize = 0;
    while i < n
        invariant
            n <= a@.len(), n <= b@.len(), i <= n,
            forall|j: int| 0 <= j < i ==> a@[j] == b@[j],
        decreases n - i,
    {
        if a[i] != b[i] {
            assert(a@.subrange(0, n as int)[i as int] != b@.subrange(0, n as int)[i as int]);
            return false;
        }
        i = i + 1;
    }
    assert(a@.subrange(0, n as int) =~= b@.subrange(0, n as int));
    true
}

/// Combines `leaf` with the first 256 siblings of `proof` from the bottom up
/// and compares the result with `root`.
fn verify_proof_internal(path: &Vec<bool>, leaf: Hash, proof: &[Hash], root: &Hash) -> (r: bool)
    requires path@.len() == 256,
    ensures
        r == (proof@.len() >= 256 && fold_up(path@, hash_views(proof@).subrange(0, 256), 0, leaf@) == root@),
{
    if proof.len() < 256 {
        return false;
    }
    let ghost sibs = hash_views(proof@).subrange(0, 256);
    let mut h = leaf;
    let mut d: usize = 256;
    assert(sibs.subrange(256, 256) =~= Seq::<Seq<u8>>::empty());
    while d > 0
        invariant
            d <= 256,
            path@.len() == 256,
            proof@.len() >= 256,
            sibs == hash_views(proof@).subrange(0, 256),
            h@ == fold_up(path@, sibs.subrange(d as int, 256), d as nat, leaf@),
        decreases d,
    {
        let sib = proof[d - 1];
        assert(sibs.subrange(d - 1, 256).drop_first() =~= sibs.subrange(d as int, 256));
        assert(sibs.subrange(d - 1, 256)[0] == sib@);
        if path[d - 1] {
            h = hash_children(&sib, &h);
        } else {
            h = hash_children(&h, &sib);
        }
        d = d - 1;
    }
    assert(sibs.subrange(0, 256) =~= sibs);
    hash_eq(&h, root)
}

/// The 32 bytes that place `key` in the tree.
fn hash_key(key: &[u8]) -> (r: [u8; 32])
    ensures r@ == key_hash(key@),
{
    let digest = blake2b512_digest(key);
    let mut r = [0u8; 32];
    let mut i: usize = 0;
    while i < 32
        invariant
            i <= 32,
            r@.len() == 32,
            digest@ == blake2b512(key@),
            digest@.len() == 64,
            forall|j: int| 0 <= j < i ==> r@[j] == digest@[j],
        decreases 32 - i,
    {
        r[i] = digest[i];
        i = i + 1;
    }
    assert(r@ =~= blake2b512(key@).subrange(0, 32));
    r
}

/// The path of `key`: the bits of its placing hash, most significant first.
fn key_to_path(key: &[u8]) -> (path: Vec<bool>)
    ensures path@ == key_path(key@),
{
    let kh = hash_key(key);
    let mut path: Vec<bool> = Vec::with_capacity(256);
    let mut n: usize = 0;
    while n < 256
        invariant
            n <= 256,
            kh@ == key_hash(key@),
            kh@.len() == 32,
            path@.len() == n,
            forall|j: int| 0 <= j < n ==> path@[j] == bit_of(key_hash(key@), j),
        decreases 256 - n,
    {
        let b: u8 = kh[n / 8];
        let s: u8 = (7 - n % 8) as u8;
        path.push((b >> s) & 1 == 1);
        n = n + 1;
    }
    assert(path@ =~= key_path(key@));
    path
}

/// The hash of a value.
fn hash_value(value: &[u8]) -> (r: Hash)
    ensures r@ == blake2b512(value@),
{
    blake2b512_digest(value)
}

/// The hash of an internal node with these children.
fn hash_children(left: &Hash, right: &Hash) -> (r: Hash)
    ensures r@ == children_hash(left@, right@),
{
    let mut data: Vec<u8> = Vec::with_capacity(128);
    append_bytes(&mut data, left.as_slice());
    append_bytes(&mut data, right.as_slice());
    blake2b512_digest(&data)
}

/// The hash of a node.
fn hash_node(node: &Node) -> (r: Hash)
    ensures r@ == node_hash(node.model()),
{
    match node {
        Node::Internal { left, right } => hash_children(left, right),
        Node::Leaf { key, value_hash } => {
            let tag: [u8; 4] = [108, 101, 97, 102];
            assert(tag@ =~= leaf_tag());
            let mut data: Vec<u8> = Vec::new();
            append_bytes(&mut data, tag.as_slice());
            append_bytes(&mut data, key);
            append_bytes(&mut data, value_hash.as_slice());
            blake2b512_digest(&data)
        },
        Node::Empty => zero(),
    }
}

/// In a cache where every node sits under its own hash, combining the
/// siblings collected on a walk down from `h` with the hash where the walk
/// stops gives back `h`.
pub proof fn lemma_proof_folds_to_root(c: Map<Seq<u8>, NodeModel>, h: Seq<u8>, path: Seq<bool>, d: nat)
    requires hash_consistent(c), d <= path.len(),
    ensures fold_up(path, proof_path(c, h, path, d), d, walk_end(c, h, path, d)) == h,
    decreases path.len() - d,
{
    if d >= path.len() || h == zero_hash() {
    } else {
        match node_at(c, h) {
            NodeModel::Internal(l, r) => {
                assert(c.contains_key(h));
                if path[d as int] {
                    lemma_proof_folds_to_root(c, r, path, d + 1);
                    let p = proof_path(c, h, path, d);
                    assert(p.drop_first() =~= proof_path(c, r, path, d + 1));
                } else {
                    lemma_proof_folds_to_root(c, l, path, d + 1);
                    let p = proof_path(c, h, path, d);
                    assert(p.drop_first() =~= proof_path(c, l, path, d + 1));
                }
            },
            _ => {},
        }
    }
}

/// A proof generated for `key` verifies `key` holding `value` against the
/// root it was generated from, whenever the walk down the key's path passes
/// 256 internal nodes and ends at the leaf for `key` and `value`.
pub proof fn lemma_generated_proof_verifies(c: Map<Seq<u8>, NodeModel>, root: Seq<u8>, key: Seq<u8>, value: Seq<u8>)
    requires
        hash_consistent(c),
        proof_path(c, root, key_path(key), 0).len() == 256,
        walk_end(c, root, key_path(key), 0) == leaf_hash_of(key, value),
    ensures
        fold_up(key_path(key), proof_path(c, root, key_path(key), 0).subrange(0, 256), 0, leaf_hash_of(key, value)) == root,
{
    lemma_proof_folds_to_root(c, root, key_path(key), 0);
    assert(proof_path(c, root, key_path(key), 0).subrange(0, 256) =~= proof_path(c, root, key_path(key), 0));
}

/// The hashes an update creates on its way down from depth `d`: the new
/// subtree hash at each depth, ending with the new leaf.
pub open spec fn update_chain(c: Map<Seq<u8>, NodeModel>, h: Seq<u8>, path: Seq<bool>, d: nat, key: Seq<u8>, vh: Seq<u8>)
    -> Seq<Seq<u8>>
    decreases path.len() - d,
{
    if d >= path.len() {
        seq![node_hash(NodeModel::Leaf(key, vh))]
    } else {
        let (l, r) = children_of(node_at(c, h));
        let next = if path[d as int] { r } else { l };
        seq![tree_update(c, h, path, d, key, vh).1] + update_chain(c, next, path, d + 1, key, vh)
    }
}

/// No two of the hashes are equal and none is the all-zero hash: the hash
/// function did not collide on them.
pub open spec fn chain_fresh(s: Seq<Seq<u8>>) -> bool {
    &&& forall|i: int, j: int| 0 <= i < j < s.len() ==> s[i] != s[j]
    &&& forall|i: int| 0 <= i < s.len() ==> s[i] != zero_hash()
}

/// `c2` holds what `c1` holds under each of the hashes `s`.
pub open spec fn agrees_on(c1: Map<Seq<u8>, NodeModel>, c2: Map<Seq<u8>, NodeModel>, s: Seq<Seq<u8>>) -> bool {
    forall|i: int| 0 <= i < s.len() ==> (#[trigger] c2.contains_key(s[i]) == c1.contains_key(s[i])
        && c2[s[i]] == c1[s[i]])
}

/// An update keeps every cached node under its own hash.
pub proof fn lemma_update_consistent(c: Map<Seq<u8>, NodeModel>, h: Seq<u8>, path: Seq<bool>, d: nat, key: Seq<u8>, vh: Seq<u8>)
    requires hash_consistent(c),
    ensures hash_consistent(tree_update(c, h, path, d, key, vh).0),
    decreases path.len() - d,
{
    if d < path.len() {
        let (l, r) = children_of(node_at(c, h));
        if path[d as int] {
            lemma_update_consistent(c, r, path, d + 1, key, vh);
        } else {
            lemma_update_consistent(c, l, path, d + 1, key, vh);
        }
    }
}

/// A deletion keeps every cached node under its own hash.
pub proof fn lemma_delete_consistent(c: Map<Seq<u8>, NodeModel>, h: Seq<u8>, path: Seq<bool>, d: nat)
    requires hash_consistent(c),
    ensures hash_consistent(tree_delete(c, h, path, d).0),
    decreases path.len() - d,
{
    match node_at(c, h) {
        NodeModel::Internal(l, r) => {
            if d < path.len() {
                if path[d as int] {
                    lemma_delete_consistent(c, r, path, d + 1);
                } else {
                    lemma_delete_consistent(c, l, path, d + 1);
                }
            }
        },
        _ => {},
    }
}

proof fn lemma_chain_head(c: Map<Seq<u8>, NodeModel>, h: Seq<u8>, path: Seq<bool>, d: nat, key: Seq<u8>, vh: Seq<u8>)
    ensures
        update_chain(c, h, path, d, key, vh).len() >= 1,
        update_chain(c, h, path, d, key, vh)[0] == tree_update(c, h, path, d, key, vh).1,
        tree_update(c, h, path, d, key, vh).0.contains_key(tree_update(c, h, path, d, key, vh).1),
{
}

/// After an update whose new hashes did not collide, the walk down the
/// updated path from the new subtree hash passes only internal nodes and
/// ends at the new leaf; this holds in any cache that agrees with the
/// updated one on those hashes.
proof fn lemma_update_walk(
    c: Map<Seq<u8>, NodeModel>, h: Seq<u8>, path: Seq<bool>, d: nat, key: Seq<u8>, vh: Seq<u8>,
    c2: Map<Seq<u8>, NodeModel>,
)
    requires
        d <= path.len(),
        chain_fresh(update_chain(c, h, path, d, key, vh)),
        agrees_on(tree_update(c, h, path, d, key, vh).0, c2, update_chain(c, h, path, d, key, vh)),
    ensures
        walk_end(c2, tree_update(c, h, path, d, key, vh).1, path, d) == node_hash(NodeModel::Leaf(key, vh)),
        proof_path(c2, tree_update(c, h, path, d, key, vh).1, path, d).len() == path.len() - d,
    decreases path.len() - d,
{
    let chain = update_chain(c, h, path, d, key, vh);
    let (c1, h1) = tree_update(c, h, path, d, key, vh);
    lemma_chain_head(c, h, path, d, key, vh);
    assert(c2.contains_key(chain[0]));
    if d < path.len() {
        let (l, r) = children_of(node_at(c, h));
        let next = if path[d as int] { r } else { l };
        let (cs, ns) = tree_update(c, next, path, d + 1, key, vh);
        let tail = update_chain(c, next, path, d + 1, key, vh);
        assert(chain == seq![h1] + tail);
        assert(tail =~= chain.drop_first());
        assert forall|i: int| 0 <= i < tail.len() implies (#[trigger] c2.contains_key(tail[i]) == cs.contains_key(tail[i])
            && c2[tail[i]] == cs[tail[i]]) by {
            assert(chain[i + 1] == tail[i]);
            assert(chain[0] != chain[i + 1]);
            assert(c2.contains_key(chain[i + 1]) == c1.contains_key(chain[i + 1]));
        };
        assert(chain_fresh(tail)) by {
            assert forall|i: int, j: int| 0 <= i < j < tail.len() implies tail[i] != tail[j] by {
                assert(chain[i + 1] != chain[j + 1]);
            };
            assert forall|i: int| 0 <= i < tail.len() implies tail[i] != zero_hash() by {
                assert(chain[i + 1] != zero_hash());
            };
        };
        lemma_update_walk(c, next, path, d + 1, key, vh, c2);
        assert(h1 != zero_hash());
        if path[d as int] {
            assert(node_at(c2, h1) == NodeModel::Internal(l, ns));
            assert(proof_path(c2, h1, path, d) == seq![l] + proof_path(c2, ns, path, d + 1));
        } else {
            assert(node_at(c2, h1) == NodeModel::Internal(ns, r));
            assert(proof_path(c2, h1, path, d) == seq![r] + proof_path(c2, ns, path, d + 1));
        }
    }
}

/// After `key` is stored with `value`, the proof generated for `key`
/// verifies `key` holding `value` against the new root, unless the hash
/// function collided on the hashes the update created.
pub proof fn lemma_update_then_proof_verifies(c: Map<Seq<u8>, NodeModel>, root: Seq<u8>, key: Seq<u8>, value: Seq<u8>)
    requires
        hash_consistent(c),
        chain_fresh(update_chain(c, root, key_path(key), 0, key, blake2b512(value))),
    ensures ({
        let (c1, r1) = tree_update(c, root, key_path(key), 0, key, blake2b512(value));
        &&& hash_consistent(c1)
        &&& proof_path(c1, r1, key_path(key), 0).len() == 256
        &&& fold_up(key_path(key), proof_path(c1, r1, key_path(key), 0).subrange(0, 256), 0, leaf_hash_of(key, value)) == r1
    }),
{
    let (c1, r1) = tree_update(c, root, key_path(key), 0, key, blake2b512(value));
    lemma_update_consistent(c, root, key_path(key), 0, key, blake2b512(value));
    lemma_update_walk(c, root, key_path(key), 0, key, blake2b512(value), c1);
    lemma_generated_proof_verifies(c1, r1, key, value);
}

proof fn lemma_delete_after_update(
    c: Map<Seq<u8>, NodeModel>, path: Seq<bool>, d: nat, key: Seq<u8>, vh: Seq<u8>, c2: Map<Seq<u8>, NodeModel>,
)
    requires
        path == key_path(key),
        d <= path.len(),
        chain_fresh(update_chain(c, zero_hash(), path, d, key, vh)),
        agrees_on(tree_update(c, zero_hash(), path, d, key, vh).0, c2, update_chain(c, zero_hash(), path, d, key, vh)),
    ensures
        tree_delete(c2, tree_update(c, zero_hash(), path, d, key, vh).1, path, d).1 == zero_hash(),
    decreases path.len() - d,
{
    let chain = update_chain(c, zero_hash(), path, d, key, vh);
    let (c1, h1) = tree_update(c, zero_hash(), path, d, key, vh);
    lemma_chain_head(c, zero_hash(), path, d, key, vh);
    assert(c2.contains_key(chain[0]));
    assert(h1 != zero_hash());
    if d < path.len() {
        let (cs, ns) = tree_update(c, zero_hash(), path, d + 1, key, vh);
        let tail = update_chain(c, zero_hash(), path, d + 1, key, vh);
        assert(tail =~= chain.drop_first());
        assert forall|i: int| 0 <= i < tail.len() implies (#[trigger] c2.contains_key(tail[i]) == cs.contains_key(tail[i])
            && c2[tail[i]] == cs[tail[i]]) by {
            assert(chain[i + 1] == tail[i]);
            assert(chain[0] != chain[i + 1]);
            assert(c2.contains_key(chain[i + 1]) == c1.contains_key(chain[i + 1]));
        };
        assert(chain_fresh(tail)) by {
            assert forall|i: int, j: int| 0 <= i < j < tail.len() implies tail[i] != tail[j] by {
                assert(chain[i + 1] != chain[j + 1]);
            };
            assert forall|i: int| 0 <= i < tail.len() implies tail[i] != zero_hash() by {
                assert(chain[i + 1] != zero_hash());
            };
        };
        lemma_delete_after_update(c, path, d + 1, key, vh, c2);
    } else {
        assert(key_path(key).subrange(0, d as int) == path.subrange(0, d as int));
    }
}

/// In an empty tree, storing `key` and then deleting it gives back the
/// empty root, unless the hash function collided on the hashes the update
/// created.
pub proof fn lemma_update_then_delete_empties(c: Map<Seq<u8>, NodeModel>, key: Seq<u8>, value: Seq<u8>)
    requires
        chain_fresh(update_chain(c, zero_hash(), key_path(key), 0, key, blake2b512(value))),
    ensures ({
        let (c1, r1) = tree_update(c, zero_hash(), key_path(key), 0, key, blake2b512(value));
        tree_delete(c1, r1, key_path(key), 0).1 == zero_hash()
    }),
{
    let (c1, r1) = tree_update(c, zero_hash(), key_path(key), 0, key, blake2b512(value));
    lemma_delete_after_update(c, key_path(key), 0, key, blake2b512(value), c1);
}

/// Two inputs on which the hash function agrees although they differ.
pub open spec fn blake2b_collides(a: Seq<u8>, b: Seq<u8>) -> bool {
    a != b && blake2b512(a) == blake2b512(b)
}

proof fn lemma_concat_differs(s: Seq<u8>, x: Seq<u8>, y: Seq<u8>)
    requires x != y,
    ensures s + x != s + y, x + s != y + s,
{
    if s + x == s + y {
        assert(x =~= (s + x).subrange(s.len() as int, (s + x).len() as int));
        assert(y =~= (s + y).subrange(s.len() as int, (s + y).len() as int));
    }
    if x + s == y + s {
        assert((x + s).len() == x.len() + s.len());
        assert((y + s).len() == y.len() + s.len());
        assert(x =~= (x + s).subrange(0, x.len() as int));
        assert(y =~= (y + s).subrange(0, y.len() as int));
    }
}

/// Folding the same siblings up from two different hashes reaches the same
/// top only if the hash function collides on the way.
pub proof fn lemma_fold_up_collision(path: Seq<bool>, sibs: Seq<Seq<u8>>, d: nat, h1: Seq<u8>, h2: Seq<u8>)
    requires
        h1 != h2,
        fold_up(path, sibs, d, h1) == fold_up(path, sibs, d, h2),
    ensures exists|a: Seq<u8>, b: Seq<u8>| blake2b_collides(a, b),
    decreases sibs.len(),
{
    if sibs.len() > 0 {
        let c1 = fold_up(path, sibs.drop_first(), d + 1, h1);
        let c2 = fold_up(path, sibs.drop_first(), d + 1, h2);
        if c1 == c2 {
            lemma_fold_up_collision(path, sibs.drop_first(), d + 1, h1, h2);
        } else {
            lemma_concat_differs(sibs[0], c1, c2);
            if path[d as int] {
                assert(blake2b_collides(sibs[0] + c1, sibs[0] + c2));
            } else {
                assert(blake2b_collides(c1 + sibs[0], c2 + sibs[0]));
            }
        }
    }
}

/// A proof of `key` holding `value` against `root` shows no other value of
/// `key` against that root, unless the hash function collides: if
/// `verify_proof` accepts both values with the same siblings and root, two
/// different inputs hash alike.
pub proof fn lemma_wrong_value_fails(key: Seq<u8>, value: Seq<u8>, other: Seq<u8>, sibs: Seq<Seq<u8>>, root: Seq<u8>)
    requires
        value != other,
        fold_up(key_path(key), sibs, 0, leaf_hash_of(key, value)) == root,
        fold_up(key_path(key), sibs, 0, leaf_hash_of(key, other)) == root,
    ensures exists|a: Seq<u8>, b: Seq<u8>| blake2b_collides(a, b),
{
    let v1 = blake2b512(value);
    let v2 = blake2b512(other);
    if v1 == v2 {
        assert(blake2b_collides(value, other));
    } else {
        let l1 = leaf_tag() + key + v1;
        let l2 = leaf_tag() + key + v2;
        lemma_concat_differs(leaf_tag() + key, v1, v2);
        if leaf_hash_of(key, value) == leaf_hash_of(key, other) {
            assert(blake2b_collides(l1, l2));
        } else {
            lemma_fold_up_collision(key_path(key), sibs, 0, leaf_hash_of(key, value), leaf_hash_of(key, other));
        }
    }
}

} // verus!
