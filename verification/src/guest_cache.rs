//! The key/value cache an indexer keeps while it processes a block: what it
//! read from the host and what it wrote, and the writes it still has to
//! flush to the host.

use vstd::prelude::*;
use crate::byte_map::{lookup, opt_view, ByteMap};
use crate::bytes::{copy_bytes, sub_bytes, vec_views};
use crate::codec::{encode_bytes, length_prefixed};
use crate::flush_codec::{encode_flush, flush_form};

verus! {

/// Each written key followed by its cached value, in the order of the
/// writes.
pub open spec fn flush_items(written: Seq<Seq<u8>>, cache: Map<Seq<u8>, Seq<u8>>) -> Seq<Seq<u8>>
    decreases written.len(),
{
    if written.len() == 0 {
        Seq::empty()
    } else {
        flush_items(written.drop_last(), cache).push(written.last()).push(cache[written.last()])
    }
}

/// The guest's cache: the values known for keys, and the keys written
/// since the last flush (each one has a cached value).
pub struct GuestCache {
    cache: ByteMap,
    to_flush: Vec<Vec<u8>>,
}

impl GuestCache {
    #[verifier::type_invariant]
    closed spec fn wf(&self) -> bool {
        forall|i: int| 0 <= i < self.to_flush@.len() ==> self.cache@.contains_key(#[trigger] self.to_flush@[i]@)
    }

    /// The values known for keys.
    pub closed spec fn cached(&self) -> Map<Seq<u8>, Seq<u8>> {
        self.cache@
    }

    /// The keys written since the last flush, in order.
    pub closed spec fn written(&self) -> Seq<Seq<u8>> {
        vec_views(self.to_flush@)
    }

    /// An empty cache.
    pub fn new() -> (c: Self)
        ensures c.cached() == Map::<Seq<u8>, Seq<u8>>::empty(), c.written() == Seq::<Seq<u8>>::empty(),
    {
        let c = GuestCache { cache: ByteMap::new(), to_flush: Vec::new() };
        assert(vec_views(c.to_flush@) =~= Seq::<Seq<u8>>::empty());
        c
    }

    /// Forgets everything.
    pub fn clear(&mut self)
        ensures final(self).cached() == Map::<Seq<u8>, Seq<u8>>::empty(), final(self).written() == Seq::<Seq<u8>>::empty(),
    {
        *self = GuestCache::new();
    }

    /// The cached value of `key`, if any.
    pub fn lookup(&self, key: &[u8]) -> (r: Option<Vec<u8>>)
        ensures opt_view(r) == lookup(self.cached(), key@),
    {
        match self.cache.get(key) {
            Some(v) => Some(copy_bytes(v)),
            None => None,
        }
    }

    /// Remembers the value the host gave for `key`.
    pub fn remember(&mut self, key: &[u8], value: &[u8])
        ensures
            final(self).cached() == old(self).cached().insert(key@, value@),
            final(self).written() == old(self).written(),
    {
        proof { use_type_invariant(&*self); }
        let mut to_flush: Vec<Vec<u8>> = Vec::new();
        std::mem::swap(&mut to_flush, &mut self.to_flush);
        let mut cache = ByteMap::new();
        std::mem::swap(&mut cache, &mut self.cache);
        cache.insert(copy_bytes(key), copy_bytes(value));
        *self = GuestCache { cache, to_flush };
    }

    /// Writes `value` under `key`: it is cached and the key is to be
    /// flushed.
    pub fn set(&mut self, key: &[u8], value: &[u8])
        ensures
            final(self).cached() == old(self).cached().insert(key@, value@),
            final(self).written() == old(self).written().push(key@),
    {
        proof { use_type_invariant(&*self); }
        let mut to_flush: Vec<Vec<u8>> = Vec::new();
        std::mem::swap(&mut to_flush, &mut self.to_flush);
        let mut cache = ByteMap::new();
        std::mem::swap(&mut cache, &mut self.cache);
        cache.insert(copy_bytes(key), copy_bytes(value));
        let ghost before = vec_views(to_flush@);
        to_flush.push(copy_bytes(key));
        assert(vec_views(to_flush@) =~= before.push(key@));
        *self = GuestCache { cache, to_flush };
    }

    /// The items to flush: each written key and its cached value, in the
    /// order of the writes; the written keys are then forgotten, the cached
    /// values kept.
    pub fn take_flush_list(&mut self) -> (list: Vec<Vec<u8>>)
        ensures
            vec_views(list@) == flush_items(old(self).written(), old(self).cached()),
            final(self).cached() == old(self).cached(),
            final(self).written() == Seq::<Seq<u8>>::empty(),
    {
        proof { use_type_invariant(&*self); }
        let ghost ws = vec_views(self.to_flush@);
        let mut list: Vec<Vec<u8>> = Vec::new();
        let mut i: usize = 0;
        while i < self.to_flush.len()
            invariant
                i <= self.to_flush@.len(),
                ws == vec_views(self.to_flush@),
                forall|j: int| 0 <= j < self.to_flush@.len() ==> self.cache@.contains_key(#[trigger] self.to_flush@[j]@),
                vec_views(list@) == flush_items(ws.subrange(0, i as int), self.cache@),
            decreases self.to_flush@.len() - i,
        {
            let key = &self.to_flush[i];
            let value = match self.cache.get(key.as_slice()) {
                Some(v) => copy_bytes(v),
                None => Vec::new(),
            };
            let ghost before = vec_views(list@);
            list.push(copy_bytes(key.as_slice()));
            list.push(value);
            assert(ws.subrange(0, i + 1).drop_last() =~= ws.subrange(0, i as int));
            assert(vec_views(list@) =~= before.push(ws[i as int]).push(self.cache@[ws[i as int]]));
            i = i + 1;
        }
        assert(ws.subrange(0, i as int) =~= ws);
        let mut to_flush: Vec<Vec<u8>> = Vec::new();
        std::mem::swap(&mut to_flush, &mut self.to_flush);
        let mut cache = ByteMap::new();
        std::mem::swap(&mut cache, &mut self.cache);
        *self = GuestCache { cache, to_flush: Vec::new() };
        assert(vec_views(self.to_flush@) =~= Seq::<Seq<u8>>::empty());
        list
    }

    /// The buffer handed to the host's flush: the flush message of the
    /// written keys and their values, preceded by its length; the written
    /// keys are then forgotten.
    pub fn flush(&mut self) -> (buf: Vec<u8>)
        ensures
            buf@ == length_prefixed(flush_form(flush_items(old(self).written(), old(self).cached()))),
            final(self).cached() == old(self).cached(),
            final(self).written() == Seq::<Seq<u8>>::empty(),
    {
        let list = self.take_flush_list();
        let message = encode_flush(&list);
        encode_bytes(&message)
    }
}

/// The value in a buffer the host filled: everything after its four
/// length bytes. A buffer of fewer than four bytes holds nothing.
pub fn value_from_host_buffer(buffer: &[u8]) -> (v: Vec<u8>)
    ensures
        buffer@.len() >= 4 ==> v@ == buffer@.subrange(4, buffer@.len() as int),
        buffer@.len() < 4 ==> v@ == Seq::<u8>::empty(),
{
    if buffer.len() < 4 {
        return Vec::new();
    }
    sub_bytes(buffer, 4, buffer.len())
}

/// Reading a key after writing it gives the written value, until the next
/// write of that key.
pub proof fn lemma_read_your_write(before: Map<Seq<u8>, Seq<u8>>, key: Seq<u8>, value: Seq<u8>)
    ensures lookup(before.insert(key, value), key) == Some(value),
{
}

} // verus!
