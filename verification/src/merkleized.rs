//! A store that keeps a sparse Merkle tree of its contents: every write
//! goes to the data store and to the tree, and the tree's nodes and root go
//! to a second store.

use vstd::prelude::*;
use crate::byte_map::{lookup, opt_view};
use crate::bytes::copy_bytes;
use crate::hashing::blake2b512;
use crate::merkle::{
    hash_consistent, key_path, merkle_root_key, node_records, pending_views, tree_delete, tree_update, zero_hash, NodeModel,
    SparseMerkleTree,
};
use crate::store::{BatchLike, KeyValueStoreLike};

verus! {

/// The tree after applying `ops` in order.
pub open spec fn tree_apply(c: Map<Seq<u8>, NodeModel>, root: Seq<u8>, ops: Seq<(Seq<u8>, Option<Seq<u8>>)>)
    -> (Map<Seq<u8>, NodeModel>, Seq<u8>)
    decreases ops.len(),
{
    if ops.len() == 0 {
        (c, root)
    } else {
        let (c1, r1) = tree_apply(c, root, ops.drop_last());
        let (k, v) = ops.last();
        match v {
            Some(val) => tree_update(c1, r1, key_path(k), 0, k, blake2b512(val)),
            None => tree_delete(c1, r1, key_path(k), 0),
        }
    }
}

/// The store contents after applying `ops` in order with puts and deletes.
pub open spec fn store_apply<S: KeyValueStoreLike>(kv: Map<Seq<u8>, Seq<u8>>, ops: Seq<(Seq<u8>, Option<Seq<u8>>)>)
    -> Map<Seq<u8>, Seq<u8>>
    decreases ops.len(),
{
    if ops.len() == 0 {
        kv
    } else {
        let before = store_apply::<S>(kv, ops.drop_last());
        let (k, v) = ops.last();
        match v {
            Some(val) => S::put_effect(before, k, val),
            None => S::delete_effect(before, k),
        }
    }
}

/// Operations to apply together.
pub struct MerkleizedRocksDBBatch {
    pub operations: Vec<(Vec<u8>, Option<Vec<u8>>)>,
}

impl MerkleizedRocksDBBatch {
    /// An empty batch.
    pub fn new() -> (b: Self)
        ensures pending_views(b.operations@) == Seq::<(Seq<u8>, Option<Seq<u8>>)>::empty(),
    {
        let b = MerkleizedRocksDBBatch { operations: Vec::new() };
        assert(pending_views(b.operations@) =~= Seq::<(Seq<u8>, Option<Seq<u8>>)>::empty());
        b
    }

    /// Records that `key` gets `value`.
    pub fn insert(&mut self, key: &[u8], value: &[u8])
        ensures pending_views(final(self).operations@) == pending_views(old(self).operations@).push((key@, Some(value@))),
    {
        let ghost before = pending_views(self.operations@);
        self.operations.push((copy_bytes(key), Some(copy_bytes(value))));
        assert(pending_views(self.operations@) =~= before.push((key@, Some(value@))));
    }

    /// Records that `key` is removed.
    pub fn remove(&mut self, key: &[u8])
        ensures pending_views(final(self).operations@) == pending_views(old(self).operations@).push((key@, None)),
    {
        let ghost before = pending_views(self.operations@);
        self.operations.push((copy_bytes(key), None));
        assert(pending_views(self.operations@) =~= before.push((key@, None)));
    }
}

/// A data store with a sparse Merkle tree of its contents, whose nodes and
/// root are kept in a second store.
pub struct MerkleizedRocksDBRuntimeAdapter<S: KeyValueStoreLike> {
    pub db: S,
    pub height: u32,
    merkle_tree: SparseMerkleTree,
    merkle_db: S,
}

impl<S: KeyValueStoreLike> MerkleizedRocksDBRuntimeAdapter<S> {
    /// The contents of the data store.
    pub closed spec fn data_kv(&self) -> Map<Seq<u8>, Seq<u8>> {
        self.db.kv()
    }

    /// The current block height.
    pub closed spec fn spec_height(&self) -> u32 {
        self.height
    }

    /// The tree's cached nodes.
    pub closed spec fn tree_cache(&self) -> Map<Seq<u8>, NodeModel> {
        self.merkle_tree.cache()
    }

    /// The tree's root.
    pub closed spec fn tree_root(&self) -> Seq<u8> {
        self.merkle_tree.root_view()
    }

    /// The contents of the store that keeps the tree.
    pub closed spec fn tree_store(&self) -> Map<Seq<u8>, Seq<u8>> {
        self.merkle_db.kv()
    }

    /// An adapter over `db` whose tree is kept in `merkle_db`: the tree
    /// starts from the root stored there, or empty.
    pub fn new(db: S, merkle_db: S) -> (r: Result<Self, S::Error>)
        ensures
            r matches Ok(a) ==> {
                &&& a.data_kv() == db.kv()
                &&& a.tree_store() == merkle_db.kv()
                &&& a.spec_height() == 0
                &&& a.tree_cache() == Map::<Seq<u8>, NodeModel>::empty()
                &&& a.tree_root() == (match lookup(merkle_db.kv(), merkle_root_key()) {
                    Some(b) => if b.len() == 64 { b } else { zero_hash() },
                    None => zero_hash(),
                })
            },
            S::never_fails() ==> r is Ok,
    {
        let mut merkle_db = merkle_db;
        let root_key: [u8; 11] = [109, 101, 114, 107, 108, 101, 95, 114, 111, 111, 116];
        assert(root_key@ =~= merkle_root_key());
        let stored = match merkle_db.get(root_key.as_slice()) {
            Ok(v) => v,
            Err(e) => return Err(e),
        };
        let merkle_tree = SparseMerkleTree::from_stored_root(stored);
        Ok(MerkleizedRocksDBRuntimeAdapter { db, height: 0, merkle_tree, merkle_db })
    }

    /// The root of the tree.
    pub fn state_root(&self) -> (r: crate::merkle::Hash)
        ensures r@ == self.tree_root(),
    {
        self.merkle_tree.root()
    }

    /// Writes the tree's root and nodes to the tree store.
    fn flush_tree(&mut self) -> (r: Result<(), S::Error>)
        ensures
            final(self).data_kv() == old(self).data_kv(),
            final(self).spec_height() == old(self).spec_height(),
            final(self).tree_root() == old(self).tree_root(),
            hash_consistent(final(self).tree_cache()),
            r is Ok ==> final(self).tree_store() == S::write_effect(old(self).tree_store(),
                seq![(merkle_root_key(), old(self).tree_root())] + node_records(old(self).merkle_tree.cache_order())),
            r is Err ==> final(self).tree_store() == old(self).tree_store(),
            S::never_fails() ==> r is Ok,
    {
        let mut batch = S::Batch::default();
        self.merkle_tree.write_updates_to_batch(&mut batch);
        assert(batch.puts() =~= seq![(merkle_root_key(), old(self).tree_root())] + node_records(old(self).merkle_tree.cache_order()));
        self.merkle_db.write(batch)
    }

    /// Applies the batch: every operation to the tree, then every operation
    /// to the data store in order, then the tree to the tree store.
    pub fn write(&mut self, batch: MerkleizedRocksDBBatch) -> (r: Result<(), S::Error>)
        ensures
            final(self).tree_root() == tree_apply(old(self).tree_cache(), old(self).tree_root(),
                pending_views(batch.operations@)).1,
            r is Ok ==> final(self).data_kv() == store_apply::<S>(old(self).data_kv(), pending_views(batch.operations@)),
            r is Err ==> exists|i: int| 0 <= i <= batch.operations@.len()
                && final(self).data_kv() == #[trigger] store_apply::<S>(old(self).data_kv(), pending_views(batch.operations@).subrange(0, i)),
            S::never_fails() ==> r is Ok,
    {
        let ghost ops = pending_views(batch.operations@);
        let ghost c0 = self.merkle_tree.cache();
        let ghost r0 = self.merkle_tree.root_view();
        let mut i: usize = 0;
        while i < batch.operations.len()
            invariant
                i <= batch.operations@.len(),
                ops == pending_views(batch.operations@),
                (self.merkle_tree.cache(), self.merkle_tree.root_view()) == tree_apply(c0, r0, ops.subrange(0, i as int)),
                self.db == old(self).db,
                c0 == old(self).tree_cache(),
                r0 == old(self).tree_root(),
            decreases batch.operations@.len() - i,
        {
            assert(ops.subrange(0, i + 1).drop_last() =~= ops.subrange(0, i as int));
            match &batch.operations[i].1 {
                Some(value) => self.merkle_tree.update(&batch.operations[i].0, value),
                None => self.merkle_tree.delete(&batch.operations[i].0),
            }
            i = i + 1;
        }
        assert(ops.subrange(0, i as int) =~= ops);
        let ghost kv0 = self.db.kv();
        let mut j: usize = 0;
        while j < batch.operations.len()
            invariant
                j <= batch.operations@.len(),
                ops == pending_views(batch.operations@),
                self.db.kv() == store_apply::<S>(kv0, ops.subrange(0, j as int)),
                (self.merkle_tree.cache(), self.merkle_tree.root_view()) == tree_apply(c0, r0, ops),
                kv0 == old(self).data_kv(),
                c0 == old(self).tree_cache(),
                r0 == old(self).tree_root(),
            decreases batch.operations@.len() - j,
        {
            assert(ops.subrange(0, j + 1).drop_last() =~= ops.subrange(0, j as int));
            let step = match &batch.operations[j].1 {
                Some(value) => self.db.put(&batch.operations[j].0, value),
                None => self.db.delete(&batch.operations[j].0),
            };
            match step {
                Ok(()) => {},
                Err(e) => {
                    assert(self.data_kv() == store_apply::<S>(old(self).data_kv(), pending_views(batch.operations@).subrange(0, j as int)));
                    return Err(e);
                },
            }
            j = j + 1;
        }
        assert(ops.subrange(0, j as int) =~= ops);
        match self.flush_tree() {
            Ok(()) => Ok(()),
            Err(e) => {
                assert(self.data_kv() == store_apply::<S>(old(self).data_kv(),
                    pending_views(batch.operations@).subrange(0, batch.operations@.len() as int)));
                Err(e)
            },
        }
    }

    /// Reads the value under `key` from the data store.
    pub fn get(&mut self, key: &[u8]) -> (r: Result<Option<Vec<u8>>, S::Error>)
        ensures
            final(self).data_kv() == old(self).data_kv(),
            final(self).tree_root() == old(self).tree_root(),
            r matches Ok(v) ==> opt_view(v) == lookup(old(self).data_kv(), key@),
            S::never_fails() ==> r is Ok,
    {
        self.db.get(key)
    }

    /// Removes `key` from the tree and from the data store, then writes the
    /// tree out.
    pub fn delete(&mut self, key: &[u8]) -> (r: Result<(), S::Error>)
        ensures
            final(self).tree_root() == tree_delete(old(self).tree_cache(), old(self).tree_root(), key_path(key@), 0).1,
            r is Ok ==> final(self).data_kv() == S::delete_effect(old(self).data_kv(), key@),
            S::never_fails() ==> r is Ok,
    {
        self.merkle_tree.delete(key);
        match self.db.delete(key) {
            Ok(()) => {},
            Err(e) => return Err(e),
        }
        self.flush_tree()
    }

    /// Stores `value` under `key` in the tree and in the data store, then
    /// writes the tree out.
    pub fn put(&mut self, key: &[u8], value: &[u8]) -> (r: Result<(), S::Error>)
        ensures
            final(self).tree_root()
                == tree_update(old(self).tree_cache(), old(self).tree_root(), key_path(key@), 0, key@, blake2b512(value@)).1,
            r is Ok ==> final(self).data_kv() == S::put_effect(old(self).data_kv(), key@, value@),
            S::never_fails() ==> r is Ok,
    {
        self.merkle_tree.update(key, value);
        match self.db.put(key, value) {
            Ok(()) => {},
            Err(e) => return Err(e),
        }
        self.flush_tree()
    }
}

} // verus!
