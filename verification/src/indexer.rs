//! The guest-side building blocks of an indexer program: the indexer trait
//! and a block-counting indexer, its key/value state, the flush message it
//! hands to the host, and a native runtime that drives an indexer without a
//! WebAssembly host.

use vstd::prelude::*;
use crate::byte_map::{ByteMap, entries_map, entry_views, keys_distinct, lookup, opt_view};
use crate::bytes::{copy_bytes, sub_bytes};
use crate::flush_codec::{flush_buffer, flush_form, pair_list};
use crate::codec::{le32, le32_value, length_prefixed, u32_from_le4, u32_to_le_bytes, CodecError};

verus! {

/// An error an indexer reports, with its message.
#[derive(Debug)]
pub struct IndexerError {
    pub message: String,
}

/// An indexer program: it processes blocks and hands over the key/value
/// pairs to store. Each implementation says, through the spec functions
/// below, what indexing a block makes of it and what it hands over.
pub trait Indexer: Sized {
    /// Whether `next` is what this indexer becomes on indexing `block` at
    /// `height`.
    spec fn indexes(self, next: Self, height: u32, block: Seq<u8>) -> bool;

    /// The pairs a flush hands over, in order.
    spec fn flushed(self) -> Seq<(Seq<u8>, Seq<u8>)>;

    /// Processes the block at `height`.
    fn index_block(&mut self, height: u32, block: &[u8]) -> (r: Result<(), IndexerError>)
        ensures r is Ok ==> old(self).indexes(*final(self), height, block@);

    /// The key/value pairs to store.
    fn flush(&self) -> (r: Result<Vec<(Vec<u8>, Vec<u8>)>, IndexerError>)
        ensures r matches Ok(v) ==> entry_views(v@) == self.flushed();
}

/// The key the block count is kept under: `block_count`.
pub open spec fn block_count_key() -> Seq<u8> {
    seq![98u8, 108u8, 111u8, 99u8, 107u8, 95u8, 99u8, 111u8, 117u8, 110u8, 116u8]
}

/// The key the last height is kept under: `last_height`.
pub open spec fn last_height_key() -> Seq<u8> {
    seq![108u8, 97u8, 115u8, 116u8, 95u8, 104u8, 101u8, 105u8, 103u8, 104u8, 116u8]
}

/// An indexer that counts the blocks it is handed and keeps the count and
/// the last height, each as four little-endian bytes.
pub struct BlockCounter {
    store: KeyValueStore,
    block_count: u32,
}

impl BlockCounter {
    /// A counter at zero with nothing stored.
    pub fn new() -> (c: Self)
        ensures c.count() == 0, c.flushed() == Seq::<(Seq<u8>, Seq<u8>)>::empty(),
    {
        BlockCounter { store: KeyValueStore::new(), block_count: 0 }
    }

    /// The number of blocks indexed, modulo 2^32.
    pub closed spec fn count(self) -> u32 {
        self.block_count
    }
}

impl Indexer for BlockCounter {
    open spec fn indexes(self, next: Self, height: u32, block: Seq<u8>) -> bool {
        &&& next.count() == (if self.count() == u32::MAX { 0 } else { (self.count() + 1) as u32 })
        &&& entries_map(next.flushed())
            == entries_map(self.flushed()).insert(block_count_key(), le32(next.count())).insert(last_height_key(), le32(height))
    }

    closed spec fn flushed(self) -> Seq<(Seq<u8>, Seq<u8>)> {
        self.store.entry_seq()
    }

    fn index_block(&mut self, height: u32, _block: &[u8]) -> (r: Result<(), IndexerError>)
        ensures r is Ok,
    {
        self.block_count = self.block_count.wrapping_add(1);
        let count_key: Vec<u8> = vec![98, 108, 111, 99, 107, 95, 99, 111, 117, 110, 116];
        let height_key: Vec<u8> = vec![108, 97, 115, 116, 95, 104, 101, 105, 103, 104, 116];
        assert(count_key@ =~= block_count_key());
        assert(height_key@ =~= last_height_key());
        let count = u32_to_le_bytes(self.block_count);
        self.store.set(count_key, copy_bytes(&count));
        let h = u32_to_le_bytes(height);
        self.store.set(height_key, copy_bytes(&h));
        proof {
            old(self).store.lemma_view_is_entry_map();
            self.store.lemma_view_is_entry_map();
        }
        Ok(())
    }

    fn flush(&self) -> (r: Result<Vec<(Vec<u8>, Vec<u8>)>, IndexerError>)
        ensures r is Ok,
    {
        Ok(self.store.pairs())
    }
}

/// An indexer together with the glue that runs it inside the host.
pub struct MetashrewIndexer<T: Indexer> {
    pub indexer: T,
}

impl<T: Indexer> MetashrewIndexer<T> {
    pub fn new(indexer: T) -> (r: Self)
        ensures r.indexer == indexer,
    {
        MetashrewIndexer { indexer }
    }

    /// Runs the wrapped indexer on the input a host hands to a guest (the
    /// height in four little-endian bytes, then the block) and gives the
    /// buffer the guest hands back to flush: the flushed pairs, keys and
    /// values alternating, as a flush message preceded by its length. An
    /// input of four bytes or fewer is refused before the indexer runs.
    pub fn process_input(&mut self, input: &[u8]) -> (r: Result<Vec<u8>, IndexerError>)
        ensures
            input@.len() <= 4 ==> (r matches Err(e) && e.message@ == "Invalid input length"@
                && final(self).indexer == old(self).indexer),
            r is Ok ==> input@.len() > 4 && old(self).indexer.indexes(final(self).indexer,
                le32_value(input@.subrange(0, 4)), input@.subrange(4, input@.len() as int)),
            r matches Ok(buf) ==> buf@ == length_prefixed(flush_form(pair_list(final(self).indexer.flushed()))),
    {
        let (height, block) = match parse_host_input(input) {
            Ok(parsed) => parsed,
            Err(_) => return Err(crate::view::invalid_input_length()),
        };
        proof { crate::codec::lemma_le32_roundtrip(height); }
        self.indexer.index_block(height, &block)?;
        let pairs = self.indexer.flush()?;
        let buf = flush_buffer(&pairs);
        Ok(buf)
    }

    /// The wrapped indexer.
    pub fn get_indexer(&self) -> (r: &T)
        ensures *r == self.indexer,
    {
        &self.indexer
    }
}

/// Why the input the host hands to a guest is unusable.
#[derive(Debug, PartialEq, Eq)]
pub enum InputError {
    /// The input is four bytes or shorter.
    InvalidInputLength,
}

/// Splits the host input into the height (its first four bytes) and the
/// block (the rest). An input of four bytes or fewer is refused.
pub fn parse_host_input(buffer: &[u8]) -> (r: Result<(u32, Vec<u8>), InputError>)
    ensures
        r is Err <==> buffer@.len() <= 4,
        r matches Ok((h, b)) ==> le32(h) == buffer@.subrange(0, 4) && b@ == buffer@.subrange(4, buffer@.len() as int)
            && buffer@ == le32(h) + b@,
{
    let n = buffer.len();
    if n <= 4 {
        return Err(InputError::InvalidInputLength);
    }
    let height = u32_from_le4(buffer[0], buffer[1], buffer[2], buffer[3]);
    let block = sub_bytes(buffer, 4, n);
    assert(buffer@.subrange(0, 4) =~= seq![buffer@[0], buffer@[1], buffer@[2], buffer@[3]]);
    assert(buffer@ =~= le32(height) + block@);
    Ok((height, block))
}

/// An in-memory key/value store for indexer state.
pub struct KeyValueStore {
    store: ByteMap,
}

impl View for KeyValueStore {
    type V = Map<Seq<u8>, Seq<u8>>;

    closed spec fn view(&self) -> Map<Seq<u8>, Seq<u8>> {
        self.store@
    }
}

impl KeyValueStore {
    /// The entries in the order [`KeyValueStore::pairs`] hands them out.
    pub closed spec fn entry_seq(&self) -> Seq<(Seq<u8>, Seq<u8>)> {
        self.store.entry_seq()
    }

    /// The store is the map its entries denote.
    pub proof fn lemma_view_is_entry_map(&self)
        ensures self@ == entries_map(self.entry_seq()),
    {
        self.store.lemma_view_is_entry_map();
    }

    pub fn new() -> (s: Self)
        ensures s@ == Map::<Seq<u8>, Seq<u8>>::empty(), s.entry_seq() == Seq::<(Seq<u8>, Seq<u8>)>::empty(),
    {
        KeyValueStore { store: ByteMap::new() }
    }

    /// Stores `value` under `key`.
    pub fn set(&mut self, key: Vec<u8>, value: Vec<u8>)
        ensures final(self)@ == old(self)@.insert(key@, value@),
    {
        self.store.insert(key, value);
    }

    /// The value under `key`.
    pub fn get(&self, key: &[u8]) -> (r: Option<&Vec<u8>>)
        ensures
            r is Some <==> self@.contains_key(key@),
            r matches Some(v) ==> v@ == self@[key@],
    {
        self.store.get(key)
    }

    /// Whether `key` has a value.
    pub fn contains_key(&self, key: &[u8]) -> (r: bool)
        ensures r == self@.contains_key(key@),
    {
        self.store.contains_key(key)
    }

    /// Removes `key`, giving back its value.
    pub fn remove(&mut self, key: &[u8]) -> (r: Option<Vec<u8>>)
        ensures
            final(self)@ == old(self)@.remove(key@),
            opt_view(r) == lookup(old(self)@, key@),
    {
        self.store.remove(key)
    }

    /// All pairs, each key once.
    pub fn pairs(&self) -> (out: Vec<(Vec<u8>, Vec<u8>)>)
        ensures
            entry_views(out@) == self.entry_seq(),
            keys_distinct(entry_views(out@)),
            entries_map(entry_views(out@)) == self@,
    {
        self.store.pairs()
    }
}

/// The view of a [`KeyValueStore`] after a run of calls, in order: a key
/// with a value stands for `set(key, value)`, a key without one for
/// `remove(key)` (each call's contract gives exactly this step).
pub open spec fn apply_store_ops(m: Map<Seq<u8>, Seq<u8>>, ops: Seq<(Seq<u8>, Option<Seq<u8>>)>) -> Map<Seq<u8>, Seq<u8>>
    decreases ops.len(),
{
    if ops.len() == 0 {
        m
    } else {
        let prev = apply_store_ops(m, ops.drop_last());
        match ops.last().1 {
            Some(v) => prev.insert(ops.last().0, v),
            None => prev.remove(ops.last().0),
        }
    }
}

/// Read after write on a [`KeyValueStore`]: once `set(key, value)` was
/// called, any later run of `set` and `remove` calls on other keys leaves
/// `get(key)` giving `value` and `contains_key(key)` true (both read the view,
/// and neither changes the store).
pub proof fn lemma_store_get_after_set(m: Map<Seq<u8>, Seq<u8>>, key: Seq<u8>, value: Seq<u8>, ops: Seq<(Seq<u8>, Option<Seq<u8>>)>)
    requires forall|i: int| 0 <= i < ops.len() ==> #[trigger] ops[i].0 != key,
    ensures
        apply_store_ops(m.insert(key, value), ops).contains_key(key),
        apply_store_ops(m.insert(key, value), ops)[key] == value,
    decreases ops.len(),
{
    if ops.len() > 0 {
        let init = ops.drop_last();
        assert forall|i: int| 0 <= i < init.len() implies #[trigger] init[i].0 != key by {
            assert(init[i] == ops[i]);
        }
        lemma_store_get_after_set(m, key, value, init);
        assert(ops[ops.len() - 1].0 != key);
    }
}

impl Default for KeyValueStore {
    fn default() -> (s: Self)
        ensures s@ == Map::<Seq<u8>, Seq<u8>>::empty(),
    {
        KeyValueStore::new()
    }
}

/// The message a guest flushes to the host: keys and values alternating.
pub struct KeyValueFlush {
    pub list: Vec<Vec<u8>>,
}

impl KeyValueFlush {
    pub fn new() -> (f: Self)
        ensures f.list@ == Seq::<Vec<u8>>::empty(),
    {
        KeyValueFlush { list: Vec::new() }
    }

    /// Appends a key and its value.
    pub fn add_pair(&mut self, key: Vec<u8>, value: Vec<u8>)
        ensures final(self).list@ == old(self).list@.push(key).push(value),
    {
        self.list.push(key);
        self.list.push(value);
    }

    /// The number of complete pairs.
    pub fn pair_count(&self) -> (n: usize)
        ensures n == self.list@.len() / 2,
    {
        self.list.len() / 2
    }
}

/// `m` with the pairs of `ps` stored in order.
pub open spec fn store_pairs(m: Map<Seq<u8>, Seq<u8>>, ps: Seq<(Seq<u8>, Seq<u8>)>) -> Map<Seq<u8>, Seq<u8>>
    decreases ps.len(),
{
    if ps.len() == 0 { m } else { store_pairs(m, ps.drop_last()).insert(ps.last().0, ps.last().1) }
}

/// An indexer run natively: blocks go straight to the indexer and what it
/// flushes is kept in memory.
pub struct NativeRuntime<T: Indexer> {
    indexer: T,
    store: ByteMap,
    height: u32,
    block: Vec<u8>,
}

impl<T: Indexer> NativeRuntime<T> {
    /// The stored state.
    pub closed spec fn store_view(&self) -> Map<Seq<u8>, Seq<u8>> {
        self.store@
    }

    /// The indexer it drives.
    pub closed spec fn spec_indexer(&self) -> T {
        self.indexer
    }

    /// The height of the last block handed over.
    pub closed spec fn spec_height(&self) -> u32 {
        self.height
    }

    /// The last block handed over.
    pub closed spec fn spec_block(&self) -> Seq<u8> {
        self.block@
    }

    pub fn new(indexer: T) -> (r: Self)
        ensures r.store_view() == Map::<Seq<u8>, Seq<u8>>::empty(), r.spec_height() == 0, r.spec_block() == Seq::<u8>::empty(),
    {
        NativeRuntime { indexer, store: ByteMap::new(), height: 0, block: Vec::new() }
    }

    /// Stores `pairs` in order.
    pub fn store_flushed(&mut self, pairs: Vec<(Vec<u8>, Vec<u8>)>)
        ensures
            final(self).store_view() == store_pairs(old(self).store_view(), entry_views(pairs@)),
            final(self).spec_height() == old(self).spec_height(),
            final(self).spec_block() == old(self).spec_block(),
            final(self).spec_indexer() == old(self).spec_indexer(),
    {
        let ghost ps = entry_views(pairs@);
        let ghost start = self.store@;
        let mut i: usize = 0;
        while i < pairs.len()
            invariant
                ps == entry_views(pairs@),
                i <= pairs@.len(),
                self.store@ == store_pairs(start, ps.subrange(0, i as int)),
                self.height == old(self).height,
                self.block == old(self).block,
                self.indexer == old(self).indexer,
            decreases pairs@.len() - i,
        {
            let k = copy_bytes(&pairs[i].0);
            let v = copy_bytes(&pairs[i].1);
            self.store.insert(k, v);
            assert(ps.subrange(0, i + 1).drop_last() =~= ps.subrange(0, i as int));
            i = i + 1;
        }
        assert(ps.subrange(0, i as int) =~= ps);
    }

    /// Runs the indexer on `block` at `height` and stores the pairs it
    /// flushes, in the order flushed.
    pub fn process_block(&mut self, height: u32, block: &[u8]) -> (r: Result<(), IndexerError>)
        ensures
            final(self).spec_height() == height,
            final(self).spec_block() == block@,
            r is Ok ==> old(self).spec_indexer().indexes(final(self).spec_indexer(), height, block@),
            r is Ok ==> final(self).store_view() == store_pairs(old(self).store_view(), final(self).spec_indexer().flushed()),
            r is Err ==> final(self).store_view() == old(self).store_view(),
    {
        self.height = height;
        self.block = copy_bytes(block);
        self.indexer.index_block(height, block)?;
        let pairs = self.indexer.flush()?;
        self.store_flushed(pairs);
        Ok(())
    }

    /// The stored value under `key`.
    pub fn get(&self, key: &[u8]) -> (r: Option<Vec<u8>>)
        ensures opt_view(r) == lookup(self.store_view(), key@),
    {
        match self.store.get(key) {
            Some(v) => Some(copy_bytes(v)),
            None => None,
        }
    }

    /// The height of the last block handed over.
    pub fn height(&self) -> (h: u32)
        ensures h == self.spec_height(),
    {
        self.height
    }
}

/// The arguments of a natively built indexer.
#[derive(Debug, Clone)]
pub struct NativeRuntimeArgs {
    /// The URL of the Bitcoin node's RPC interface.
    pub daemon_rpc_url: String,
    /// Where the database is.
    pub db_path: String,
    /// The first block to index.
    pub start_block: Option<u32>,
    /// `user:password` for the node's RPC interface.
    pub auth: Option<String>,
    /// The label the database's keys are prefixed with.
    pub label: Option<String>,
    /// The height to stop at.
    pub exit_at: Option<u32>,
    /// The address the JSON-RPC server binds to.
    pub host: String,
    /// The port the JSON-RPC server listens on.
    pub port: u16,
    /// The origins the server answers cross-origin requests from.
    pub cors: Option<String>,
    /// How many blocks are fetched ahead.
    pub pipeline_size: usize,
}

/// A natively built indexer with the arguments it was started with.
pub struct NativeRuntimeServer<T: Indexer> {
    runtime: NativeRuntime<T>,
    args: NativeRuntimeArgs,
}

impl<T: Indexer> NativeRuntimeServer<T> {
    /// The runtime it drives.
    pub closed spec fn spec_runtime(&self) -> NativeRuntime<T> {
        self.runtime
    }

    /// The arguments it was started with.
    pub closed spec fn spec_args(&self) -> NativeRuntimeArgs {
        self.args
    }

    /// A server for `indexer`, with an empty store, at height 0.
    pub fn new(indexer: T, args: NativeRuntimeArgs) -> (s: Self)
        ensures
            s.spec_runtime().store_view() == Map::<Seq<u8>, Seq<u8>>::empty(),
            s.spec_runtime().spec_height() == 0,
            s.spec_args() == args,
    {
        NativeRuntimeServer { runtime: NativeRuntime::new(indexer), args }
    }

    /// The runtime it drives.
    pub fn runtime(&self) -> (r: &NativeRuntime<T>)
        ensures *r == self.spec_runtime(),
    {
        &self.runtime
    }

    /// The runtime it drives, to hand it blocks.
    pub fn runtime_mut(&mut self) -> (r: &mut NativeRuntime<T>)
        ensures *r == old(self).spec_runtime(), final(self).spec_runtime() == *final(r), final(self).spec_args() == old(self).spec_args(),
    {
        &mut self.runtime
    }

    /// The arguments it was started with.
    pub fn args(&self) -> (a: &NativeRuntimeArgs)
        ensures *a == self.spec_args(),
    {
        &self.args
    }
}

} // verus!
