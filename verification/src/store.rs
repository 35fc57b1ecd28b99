//! The key/value store interface the runtime writes through, an in-memory
//! store that implements it, and the preview store that layers uncommitted
//! writes over another store.

use vstd::prelude::*;
use crate::byte_map::{ByteMap, lookup, opt_view};
use crate::bytes::copy_bytes;

verus! {

/// The map that results from applying `puts` to `m` in order.
pub open spec fn apply_puts(m: Map<Seq<u8>, Seq<u8>>, puts: Seq<(Seq<u8>, Seq<u8>)>) -> Map<Seq<u8>, Seq<u8>>
    decreases puts.len(),
{
    if puts.len() == 0 {
        m
    } else {
        apply_puts(m, puts.drop_last()).insert(puts.last().0, puts.last().1)
    }
}

/// A write batch: it records puts that a store applies together.
pub trait BatchLike: Sized {
    /// The puts recorded so far, oldest first.
    spec fn puts(&self) -> Seq<(Seq<u8>, Seq<u8>)>;

    /// Records a put of `value` under `key`.
    fn put(&mut self, key: &[u8], value: &[u8])
        ensures final(self).puts() == old(self).puts().push((key@, value@));

    /// An empty batch.
    fn default() -> (b: Self)
        ensures b.puts() == Seq::<(Seq<u8>, Seq<u8>)>::empty();
}

/// A key/value store. Each implementation says, through the spec functions
/// below, how its operations change the map it presents.
pub trait KeyValueStoreLike: Sized {
    type Error;
    type Batch: BatchLike;

    /// The map from keys to values that reads observe.
    spec fn kv(&self) -> Map<Seq<u8>, Seq<u8>>;

    /// Whether no operation of this store ever reports an error.
    spec fn never_fails() -> bool;

    /// The map after a successful write of a batch with `puts`.
    spec fn write_effect(kv: Map<Seq<u8>, Seq<u8>>, puts: Seq<(Seq<u8>, Seq<u8>)>) -> Map<Seq<u8>, Seq<u8>>;

    /// The map after a successful put.
    spec fn put_effect(kv: Map<Seq<u8>, Seq<u8>>, key: Seq<u8>, value: Seq<u8>) -> Map<Seq<u8>, Seq<u8>>;

    /// The map after a successful delete.
    spec fn delete_effect(kv: Map<Seq<u8>, Seq<u8>>, key: Seq<u8>) -> Map<Seq<u8>, Seq<u8>>;

    /// Applies a batch.
    fn write(&mut self, batch: Self::Batch) -> (r: Result<(), Self::Error>)
        ensures
            r is Ok ==> final(self).kv() == Self::write_effect(old(self).kv(), batch.puts()),
            r is Err ==> final(self).kv() == old(self).kv(),
            Self::never_fails() ==> r is Ok;

    /// Reads the value under `key`.
    fn get(&mut self, key: &[u8]) -> (r: Result<Option<Vec<u8>>, Self::Error>)
        ensures
            final(self).kv() == old(self).kv(),
            r matches Ok(v) ==> opt_view(v) == lookup(old(self).kv(), key@),
            Self::never_fails() ==> r is Ok;

    /// Removes `key`.
    fn delete(&mut self, key: &[u8]) -> (r: Result<(), Self::Error>)
        ensures
            r is Ok ==> final(self).kv() == Self::delete_effect(old(self).kv(), key@),
            r is Err ==> final(self).kv() == old(self).kv(),
            Self::never_fails() ==> r is Ok;

    /// Stores `value` under `key`.
    fn put(&mut self, key: &[u8], value: &[u8]) -> (r: Result<(), Self::Error>)
        ensures
            r is Ok ==> final(self).kv() == Self::put_effect(old(self).kv(), key@, value@),
            r is Err ==> final(self).kv() == old(self).kv(),
            Self::never_fails() ==> r is Ok;
}

/// A batch that keeps its puts in a vector.
pub struct MemBatch {
    ops: Vec<(Vec<u8>, Vec<u8>)>,
}

impl BatchLike for MemBatch {
    closed spec fn puts(&self) -> Seq<(Seq<u8>, Seq<u8>)> {
        crate::byte_map::entry_views(self.ops@)
    }

    fn put(&mut self, key: &[u8], value: &[u8]) {
        let ghost before = self.ops@;
        self.ops.push((copy_bytes(key), copy_bytes(value)));
        assert(crate::byte_map::entry_views(self.ops@) =~= crate::byte_map::entry_views(before).push((key@, value@)));
    }

    fn default() -> (b: Self) {
        let b = MemBatch { ops: Vec::new() };
        assert(crate::byte_map::entry_views(b.ops@) =~= Seq::<(Seq<u8>, Seq<u8>)>::empty());
        b
    }
}

/// The error type of [`MemStore`]; no operation produces it.
#[derive(Debug)]
pub struct MemStoreError;

/// An in-memory store.
pub struct MemStore {
    map: ByteMap,
}

impl MemStore {
    /// An empty store.
    pub fn new() -> (s: Self)
        ensures s.kv() == Map::<Seq<u8>, Seq<u8>>::empty(),
    {
        MemStore { map: ByteMap::new() }
    }

    /// The number of keys stored.
    pub fn len(&self) -> (n: usize)
        ensures n == self.kv().dom().len(),
    {
        self.map.len()
    }

    /// Copies of all entries, each key once.
    pub fn entries(&self) -> (out: Vec<(Vec<u8>, Vec<u8>)>)
        ensures
            crate::byte_map::keys_distinct(crate::byte_map::entry_views(out@)),
            crate::byte_map::entries_map(crate::byte_map::entry_views(out@)) == self.kv(),
    {
        self.map.pairs()
    }
}

impl Clone for MemStore {
    fn clone(&self) -> (c: Self)
        ensures c.kv() == self.kv(),
    {
        MemStore { map: self.map.clone() }
    }
}

impl KeyValueStoreLike for MemStore {
    type Error = MemStoreError;
    type Batch = MemBatch;

    closed spec fn kv(&self) -> Map<Seq<u8>, Seq<u8>> {
        self.map@
    }

    open spec fn never_fails() -> bool {
        true
    }

    open spec fn write_effect(kv: Map<Seq<u8>, Seq<u8>>, puts: Seq<(Seq<u8>, Seq<u8>)>) -> Map<Seq<u8>, Seq<u8>> {
        apply_puts(kv, puts)
    }

    open spec fn put_effect(kv: Map<Seq<u8>, Seq<u8>>, key: Seq<u8>, value: Seq<u8>) -> Map<Seq<u8>, Seq<u8>> {
        kv.insert(key, value)
    }

    open spec fn delete_effect(kv: Map<Seq<u8>, Seq<u8>>, key: Seq<u8>) -> Map<Seq<u8>, Seq<u8>> {
        kv.remove(key)
    }

    fn write(&mut self, batch: MemBatch) -> (r: Result<(), MemStoreError>) {
        let ghost start = self.map@;
        let ghost all = batch.puts();
        let mut i: usize = 0;
        while i < batch.ops.len()
            invariant
                i <= batch.ops@.len(),
                all == crate::byte_map::entry_views(batch.ops@),
                self.map@ == apply_puts(start, all.subrange(0, i as int)),
            decreases batch.ops@.len() - i,
        {
            let k = copy_bytes(&batch.ops[i].0);
            let v = copy_bytes(&batch.ops[i].1);
            self.map.insert(k, v);
            proof {
                let pre = all.subrange(0, i as int);
                let post = all.subrange(0, i + 1);
                assert(post.drop_last() =~= pre);
                assert(post.last() == all[i as int]);
            }
            i = i + 1;
        }
        assert(all.subrange(0, i as int) =~= all);
        Ok(())
    }

    fn get(&mut self, key: &[u8]) -> (r: Result<Option<Vec<u8>>, MemStoreError>) {
        match self.map.get(key) {
            Some(v) => Ok(Some(copy_bytes(v))),
            None => Ok(None),
        }
    }

    fn delete(&mut self, key: &[u8]) -> (r: Result<(), MemStoreError>) {
        let _ = self.map.remove(key);
        Ok(())
    }

    fn put(&mut self, key: &[u8], value: &[u8]) -> (r: Result<(), MemStoreError>) {
        self.map.insert(copy_bytes(key), copy_bytes(value));
        Ok(())
    }
}

/// A store that keeps its own puts in an overlay and reads through to
/// another store for everything else. Writes of batches and deletes leave it
/// unchanged: a preview run keeps its effects in the overlay only.
pub struct PreviewDBWrapper<T: KeyValueStoreLike + Clone> {
    underlying_db: T,
    overlay: ByteMap,
}

impl<T: KeyValueStoreLike + Clone> PreviewDBWrapper<T> {
    /// A preview over `underlying_db` with an empty overlay.
    pub fn new(underlying_db: T) -> (p: Self)
        ensures p.kv() == underlying_db.kv(), p.overlay_kv() == Map::<Seq<u8>, Seq<u8>>::empty(),
    {
        let p = PreviewDBWrapper { underlying_db, overlay: ByteMap::new() };
        assert(p.underlying_db.kv().union_prefer_right(p.overlay@) =~= p.underlying_db.kv());
        p
    }

    /// The puts kept in the overlay.
    pub closed spec fn overlay_kv(&self) -> Map<Seq<u8>, Seq<u8>> {
        self.overlay@
    }

    /// The store read through to.
    pub closed spec fn underlying_kv(&self) -> Map<Seq<u8>, Seq<u8>> {
        self.underlying_db.kv()
    }
}

impl<T: KeyValueStoreLike + Clone> Clone for PreviewDBWrapper<T> {
    fn clone(&self) -> Self {
        PreviewDBWrapper { underlying_db: self.underlying_db.clone(), overlay: self.overlay.clone() }
    }
}

impl<T: KeyValueStoreLike + Clone> KeyValueStoreLike for PreviewDBWrapper<T> {
    type Error = T::Error;
    type Batch = T::Batch;

    closed spec fn kv(&self) -> Map<Seq<u8>, Seq<u8>> {
        self.underlying_db.kv().union_prefer_right(self.overlay@)
    }

    open spec fn never_fails() -> bool {
        T::never_fails()
    }

    open spec fn write_effect(kv: Map<Seq<u8>, Seq<u8>>, puts: Seq<(Seq<u8>, Seq<u8>)>) -> Map<Seq<u8>, Seq<u8>> {
        kv
    }

    open spec fn put_effect(kv: Map<Seq<u8>, Seq<u8>>, key: Seq<u8>, value: Seq<u8>) -> Map<Seq<u8>, Seq<u8>> {
        kv.insert(key, value)
    }

    open spec fn delete_effect(kv: Map<Seq<u8>, Seq<u8>>, key: Seq<u8>) -> Map<Seq<u8>, Seq<u8>> {
        kv
    }

    fn write(&mut self, _batch: T::Batch) -> (r: Result<(), T::Error>)
        ensures
            r is Ok,
            final(self).underlying_kv() == old(self).underlying_kv(),
            final(self).overlay_kv() == old(self).overlay_kv(),
    {
        Ok(())
    }

    fn get(&mut self, key: &[u8]) -> (r: Result<Option<Vec<u8>>, T::Error>)
        ensures
            final(self).underlying_kv() == old(self).underlying_kv(),
            final(self).overlay_kv() == old(self).overlay_kv(),
    {
        match self.overlay.get(key) {
            Some(v) => {
                return Ok(Some(copy_bytes(v)));
            },
            None => {},
        }
        let r = self.underlying_db.get(key);
        assert(lookup(self.kv(), key@) == lookup(self.underlying_db.kv(), key@));
        r
    }

    fn delete(&mut self, _key: &[u8]) -> (r: Result<(), T::Error>)
        ensures
            r is Ok,
            final(self).underlying_kv() == old(self).underlying_kv(),
            final(self).overlay_kv() == old(self).overlay_kv(),
    {
        Ok(())
    }

    fn put(&mut self, key: &[u8], value: &[u8]) -> (r: Result<(), T::Error>)
        ensures
            r is Ok,
            final(self).underlying_kv() == old(self).underlying_kv(),
            final(self).overlay_kv() == old(self).overlay_kv().insert(key@, value@),
    {
        let ghost before = self.kv();
        self.overlay.insert(copy_bytes(key), copy_bytes(value));
        assert(self.kv() =~= before.insert(key@, value@));
        Ok(())
    }
}

} // verus!
