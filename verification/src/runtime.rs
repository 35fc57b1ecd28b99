//! The host side of the indexer runtime: the height-versioned key/value chain
//! that a guest's flushes append to and its reads look up, and the
//! reorganisation scan over the per-height update lists.
//!
//! A key `k` holds a list: entry `i` is stored under `k ++ le32(i)` as the
//! 4-byte height it was written at followed by the value, and the list
//! length is stored under `k ++ le32(u32::MAX)`. The keys written at height
//! `h` are themselves appended to the list of the key `le32(h)`.

use vstd::prelude::*;
use crate::byte_map::{ByteMap, ByteSet, lookup, opt_view};
use crate::bytes::{append_bytes, copy_bytes, sub_bytes, vec_views};
use crate::codec::{
    annotated, le32, le32_value, lemma_le32_injective, lemma_le32_len, lemma_le32_of_value, lemma_le32_roundtrip,
    list_key, length_key, make_list_key, make_length_key, annotate_value, u32_from_le4,
    u32_to_le_bytes,
};
use crate::store::{BatchLike, KeyValueStoreLike, MemStore, PreviewDBWrapper};

verus! {

/// Why a runtime operation on the store failed.
#[derive(Debug, PartialEq, Eq)]
pub enum RuntimeError {
    /// The store reported an error.
    Database,
    /// A stored list length is not exactly four bytes long.
    InvalidLength,
    /// A stored list entry is shorter than its 4-byte height prefix.
    InvalidValueLength { len: usize },
    /// The update list of a height lacks the entry at `index`.
    MissingUpdateEntry { index: u32 },
    /// A guest passed a pointer below 4.
    MemoryError,
    /// A guest run returned without flushing and without a failed host call.
    ExitedUnexpectedly,
}

/// The outcome of a guest run that returned: it succeeded when the guest
/// flushed (the run's state is 1) or a host call failed; otherwise the
/// indexer exited unexpectedly.
pub fn run_outcome(state: u32, had_failure: bool) -> (r: Result<(), RuntimeError>)
    ensures
        r is Ok <==> (state == 1 || had_failure),
        r is Err ==> r == Err::<(), RuntimeError>(RuntimeError::ExitedUnexpectedly),
{
    if state != 1 && !had_failure {
        return Err(RuntimeError::ExitedUnexpectedly);
    }
    Ok(())
}

/// The state the host functions of one indexer run share.
pub struct MetashrewRuntimeContext<T: KeyValueStoreLike> {
    pub db: T,
    pub height: u32,
    pub block: Vec<u8>,
    pub state: u32,
}

impl<T: KeyValueStoreLike> MetashrewRuntimeContext<T> {
    /// A context at `height` for `block`, in state 0.
    pub fn new(db: T, height: u32, block: Vec<u8>) -> (c: Self)
        ensures c.db == db, c.height == height, c.block@ == block@, c.state == 0,
    {
        MetashrewRuntimeContext { db, height, block, state: 0 }
    }
}

/// The length recorded under `lk`: zero when absent, an error when the stored
/// value is not four bytes.
pub open spec fn stored_length(kv: Map<Seq<u8>, Seq<u8>>, lk: Seq<u8>) -> Result<u32, RuntimeError> {
    if !kv.contains_key(lk) {
        Ok(0)
    } else if kv[lk].len() == 4 {
        Ok(le32_value(kv[lk]))
    } else {
        Err(RuntimeError::InvalidLength)
    }
}

/// The `i`-th entry of the list under `key`; a missing entry reads as four
/// zero bytes (an empty value written at height 0).
pub open spec fn entry_at(kv: Map<Seq<u8>, Seq<u8>>, key: Seq<u8>, i: u32) -> Seq<u8> {
    if kv.contains_key(list_key(key, i)) { kv[list_key(key, i)] } else { le32(0) }
}

/// The height prefix of an entry.
pub open spec fn entry_height(e: Seq<u8>) -> u32 {
    le32_value(e.subrange(0, 4))
}

/// The value part of an entry.
pub open spec fn entry_value(e: Seq<u8>) -> Seq<u8> {
    e.subrange(4, e.len() as int)
}

/// Scans entries `n - 1` down to `0` for the newest one written at or
/// before `height`.
pub open spec fn scan_value(kv: Map<Seq<u8>, Seq<u8>>, key: Seq<u8>, height: u32, n: nat) -> Result<Seq<u8>, RuntimeError>
    decreases n,
{
    if n == 0 {
        Ok(Seq::empty())
    } else {
        let e = entry_at(kv, key, (n - 1) as u32);
        if e.len() < 4 {
            Err(RuntimeError::InvalidValueLength { len: e.len() as usize })
        } else if height >= entry_height(e) {
            Ok(entry_value(e))
        } else {
            scan_value(kv, key, height, (n - 1) as nat)
        }
    }
}

/// The value of `key` as of `height`: the newest entry written at or before
/// `height`, or empty when there is none. A length of 2^31 or more is read as
/// a negative signed count, which leaves nothing to scan.
pub open spec fn value_at_block(kv: Map<Seq<u8>, Seq<u8>>, key: Seq<u8>, height: u32) -> Result<Seq<u8>, RuntimeError> {
    match stored_length(kv, length_key(key)) {
        Err(e) => Err(e),
        Ok(n) => if n >= 0x8000_0000 { Ok(Seq::empty()) } else { scan_value(kv, key, height, n as nat) },
    }
}

/// The view of a result holding bytes.
pub open spec fn res_bytes(r: Result<Vec<u8>, RuntimeError>) -> Result<Seq<u8>, RuntimeError> {
    match r {
        Ok(v) => Ok(v@),
        Err(e) => Err(e),
    }
}

/// Reads `lk` from the store of `ctx`.
fn db_get<T: KeyValueStoreLike>(ctx: &mut MetashrewRuntimeContext<T>, k: &[u8]) -> (r: Result<Option<Vec<u8>>, RuntimeError>)
    ensures
        final(ctx).db.kv() == old(ctx).db.kv(),
        final(ctx).height == old(ctx).height,
        final(ctx).block == old(ctx).block,
        final(ctx).state == old(ctx).state,
        r matches Ok(v) ==> opt_view(v) == lookup(old(ctx).db.kv(), k@),
        r is Err ==> r == Err::<Option<Vec<u8>>, RuntimeError>(RuntimeError::Database),
        T::never_fails() ==> r is Ok,
{
    match ctx.db.get(k) {
        Ok(v) => Ok(v),
        Err(_) => Err(RuntimeError::Database),
    }
}

/// The list length stored under the length key `lk`.
pub fn db_length_at_key<T: KeyValueStoreLike>(ctx: &mut MetashrewRuntimeContext<T>, lk: &[u8]) -> (r: Result<u32, RuntimeError>)
    ensures
        final(ctx).db.kv() == old(ctx).db.kv(),
        final(ctx).height == old(ctx).height,
        final(ctx).block == old(ctx).block,
        final(ctx).state == old(ctx).state,
        r is Ok ==> r == stored_length(old(ctx).db.kv(), lk@),
        stored_length(old(ctx).db.kv(), lk@) is Err ==> r is Err,
        r is Err ==> r == Err::<u32, RuntimeError>(RuntimeError::Database) || r == stored_length(old(ctx).db.kv(), lk@),
        T::never_fails() ==> r == stored_length(old(ctx).db.kv(), lk@),
{
    match db_get(ctx, lk)? {
        Some(v) => {
            if v.len() != 4 {
                return Err(RuntimeError::InvalidLength);
            }
            let n = u32_from_le4(v[0], v[1], v[2], v[3]);
            assert(v@ =~= seq![v@[0], v@[1], v@[2], v@[3]]);
            Ok(n)
        },
        None => Ok(0),
    }
}

/// The value of `key` as of `height`.
pub fn db_value_at_block<T: KeyValueStoreLike>(ctx: &mut MetashrewRuntimeContext<T>, key: &[u8], height: u32) -> (r: Result<Vec<u8>, RuntimeError>)
    requires stored_length(old(ctx).db.kv(), length_key(key@)) != Ok::<u32, RuntimeError>(0x8000_0000u32),
    ensures
        final(ctx).db.kv() == old(ctx).db.kv(),
        final(ctx).height == old(ctx).height,
        final(ctx).block == old(ctx).block,
        final(ctx).state == old(ctx).state,
        r is Ok ==> res_bytes(r) == value_at_block(old(ctx).db.kv(), key@, height),
        value_at_block(old(ctx).db.kv(), key@, height) is Err ==> r is Err,
        r is Err ==> res_bytes(r) == Err::<Seq<u8>, RuntimeError>(RuntimeError::Database)
            || res_bytes(r) == value_at_block(old(ctx).db.kv(), key@, height),
        T::never_fails() ==> res_bytes(r) == value_at_block(old(ctx).db.kv(), key@, height),
{
    let ghost kv = ctx.db.kv();
    let lk = make_length_key(key);
    let length = db_length_at_key(ctx, &lk)?;
    if length >= 0x8000_0000 {
        return Ok(Vec::new());
    }
    let mut n: u32 = length;
    while n > 0
        invariant
            ctx.db.kv() == kv,
            kv == old(ctx).db.kv(),
            ctx.height == old(ctx).height,
            ctx.block == old(ctx).block,
            ctx.state == old(ctx).state,
            n <= length < 0x8000_0000,
            value_at_block(kv, key@, height) == scan_value(kv, key@, height, n as nat),
        decreases n,
    {
        let idx = n - 1;
        let list_k = make_list_key(key, idx);
        let value = match db_get(ctx, &list_k)? {
            Some(v) => v,
            None => {
                let z = u32_to_le_bytes(0);
                copy_bytes(&z)
            },
        };
        assert(value@ == entry_at(kv, key@, idx));
        let vlen = value.len();
        if vlen < 4 {
            return Err(RuntimeError::InvalidValueLength { len: vlen });
        }
        let value_height = u32_from_le4(value[0], value[1], value[2], value[3]);
        assert(value@.subrange(0, 4) =~= seq![value@[0], value@[1], value@[2], value@[3]]);
        if height >= value_height {
            return Ok(sub_bytes(&value, 4, vlen));
        }
        n = idx;
    }
    Ok(Vec::new())
}

/// A put of a batch.
pub type Put = (Seq<u8>, Seq<u8>);

/// The puts that append `entry` to the list under `key`, given the length
/// currently stored.
pub open spec fn append_puts(kv: Map<Seq<u8>, Seq<u8>>, key: Seq<u8>, entry: Seq<u8>) -> Result<Seq<Put>, RuntimeError> {
    match stored_length(kv, length_key(key)) {
        Err(e) => Err(e),
        Ok(n) => Ok(seq![(list_key(key, n), entry), (length_key(key), le32((n + 1) as u32))]),
    }
}

/// Appending under `key` would not overflow the stored length.
pub open spec fn can_append(kv: Map<Seq<u8>, Seq<u8>>, key: Seq<u8>) -> bool {
    stored_length(kv, length_key(key)) != Ok::<u32, RuntimeError>(u32::MAX)
}

/// Records in `batch` an empty update list for `height`.
pub fn db_create_empty_update_list<B: BatchLike>(batch: &mut B, height: u32) -> (r: Result<(), RuntimeError>)
    ensures
        r is Ok,
        final(batch).puts() == old(batch).puts().push((length_key(le32(height)), le32(0))),
{
    let height_vec = u32_to_le_bytes(height);
    let key = make_length_key(&height_vec);
    let value = u32_to_le_bytes(0);
    batch.put(&key, &value);
    Ok(())
}

/// Records in `batch` the puts that append `entry` under `key`.
fn append_entry<T: KeyValueStoreLike>(ctx: &mut MetashrewRuntimeContext<T>, batch: &mut T::Batch, key: &[u8], entry: &[u8]) -> (r: Result<(), RuntimeError>)
    requires can_append(old(ctx).db.kv(), key@),
    ensures
        final(ctx).db.kv() == old(ctx).db.kv(),
        final(ctx).height == old(ctx).height,
        final(ctx).block == old(ctx).block,
        final(ctx).state == old(ctx).state,
        r is Ok ==> (append_puts(old(ctx).db.kv(), key@, entry@) matches Ok(p) && final(batch).puts() == old(batch).puts() + p),
        r is Err ==> final(batch).puts() == old(batch).puts(),
        append_puts(old(ctx).db.kv(), key@, entry@) is Err ==> r is Err,
        T::never_fails() ==> (r is Ok <==> append_puts(old(ctx).db.kv(), key@, entry@) is Ok),
{
    let lk = make_length_key(key);
    let length = db_length_at_key(ctx, &lk)?;
    let entry_key = make_list_key(key, length);
    let ghost before = batch.puts();
    batch.put(&entry_key, entry);
    let new_length = u32_to_le_bytes(length + 1);
    batch.put(&lk, &new_length);
    assert(batch.puts() =~= before + seq![(list_key(key@, length), entry@), (length_key(key@), le32((length + 1) as u32))]);
    Ok(())
}

/// Records in `batch` the append of `value`, annotated with `block_height`,
/// to the list under `key`.
pub fn db_append_annotated<T: KeyValueStoreLike>(ctx: &mut MetashrewRuntimeContext<T>, batch: &mut T::Batch, key: &[u8], value: &[u8], block_height: u32) -> (r: Result<(), RuntimeError>)
    requires can_append(old(ctx).db.kv(), key@),
    ensures
        final(ctx).db.kv() == old(ctx).db.kv(),
        final(ctx).height == old(ctx).height,
        final(ctx).block == old(ctx).block,
        final(ctx).state == old(ctx).state,
        r is Ok ==> (append_puts(old(ctx).db.kv(), key@, annotated(value@, block_height)) matches Ok(p)
            && final(batch).puts() == old(batch).puts() + p),
        r is Err ==> final(batch).puts() == old(batch).puts(),
        append_puts(old(ctx).db.kv(), key@, annotated(value@, block_height)) is Err ==> r is Err,
        T::never_fails() ==> (r is Ok <==> stored_length(old(ctx).db.kv(), length_key(key@)) is Ok),
{
    let entry = annotate_value(value, block_height);
    append_entry(ctx, batch, key, &entry)
}

/// Records in `batch` the append of `value` to the list under `key`.
pub fn db_append<T: KeyValueStoreLike>(ctx: &mut MetashrewRuntimeContext<T>, batch: &mut T::Batch, key: &[u8], value: &[u8]) -> (r: Result<(), RuntimeError>)
    requires can_append(old(ctx).db.kv(), key@),
    ensures
        final(ctx).db.kv() == old(ctx).db.kv(),
        final(ctx).height == old(ctx).height,
        final(ctx).block == old(ctx).block,
        final(ctx).state == old(ctx).state,
        r is Ok ==> (append_puts(old(ctx).db.kv(), key@, value@) matches Ok(p) && final(batch).puts() == old(batch).puts() + p),
        r is Err ==> final(batch).puts() == old(batch).puts(),
        append_puts(old(ctx).db.kv(), key@, value@) is Err ==> r is Err,
        T::never_fails() ==> (r is Ok <==> stored_length(old(ctx).db.kv(), length_key(key@)) is Ok),
{
    append_entry(ctx, batch, key, value)
}

/// The puts that record one flushed pair at `height`, reading lengths from
/// `kv`: the annotated value appended under `k`, then `k` appended to the
/// update list of `height` (its length read after the first append).
pub open spec fn flush_pair_puts(kv: Map<Seq<u8>, Seq<u8>>, height: u32, k: Seq<u8>, v: Seq<u8>) -> Result<Seq<Put>, RuntimeError> {
    match append_puts(kv, k, annotated(v, height)) {
        Err(e) => Err(e),
        Ok(a) => match append_puts(crate::store::apply_puts(kv, a), le32(height), k) {
            Err(e) => Err(e),
            Ok(b) => Ok(a + b),
        },
    }
}

/// The puts of a flush of the first `p` pairs of `list` at `height`: the
/// empty update list for `height`, then each pair in turn, its lengths read
/// from the store as the puts before it leave it.
pub open spec fn flush_puts_upto(kv: Map<Seq<u8>, Seq<u8>>, height: u32, list: Seq<Seq<u8>>, p: nat) -> Result<Seq<Put>, RuntimeError>
    decreases p,
{
    if p == 0 {
        Ok(seq![(length_key(le32(height)), le32(0))])
    } else {
        match flush_puts_upto(kv, height, list, (p - 1) as nat) {
            Err(e) => Err(e),
            Ok(s) => match flush_pair_puts(crate::store::apply_puts(kv, s), height, list[2 * (p - 1)], list[2 * (p - 1) + 1]) {
                Err(e) => Err(e),
                Ok(t) => Ok(s + t),
            },
        }
    }
}

/// The puts of a flush of `list` (keys and values alternating; a trailing
/// odd element is ignored) at `height`.
pub open spec fn flush_puts(kv: Map<Seq<u8>, Seq<u8>>, height: u32, list: Seq<Seq<u8>>) -> Result<Seq<Put>, RuntimeError> {
    flush_puts_upto(kv, height, list, list.len() / 2)
}

/// Neither length that recording the pair `(k, v)` at `height` reads from
/// `kv` is `u32::MAX`.
pub open spec fn pair_fits(kv: Map<Seq<u8>, Seq<u8>>, height: u32, k: Seq<u8>, v: Seq<u8>) -> bool {
    &&& can_append(kv, k)
    &&& (append_puts(kv, k, annotated(v, height)) matches Ok(a) ==> can_append(crate::store::apply_puts(kv, a), le32(height)))
}

/// No length that the flush of the first `p` pairs reads is `u32::MAX`.
pub open spec fn flush_fits_upto(kv: Map<Seq<u8>, Seq<u8>>, height: u32, list: Seq<Seq<u8>>, p: nat) -> bool
    decreases p,
{
    p == 0 || (flush_fits_upto(kv, height, list, (p - 1) as nat) && (flush_puts_upto(kv, height, list, (p - 1) as nat) matches Ok(s)
        ==> pair_fits(crate::store::apply_puts(kv, s), height, list[2 * (p - 1)], list[2 * (p - 1) + 1])))
}

/// No length that a flush of `list` at `height` reads is `u32::MAX`.
pub open spec fn flush_fits(kv: Map<Seq<u8>, Seq<u8>>, height: u32, list: Seq<Seq<u8>>) -> bool {
    flush_fits_upto(kv, height, list, list.len() / 2)
}

proof fn lemma_fits_prefix(kv: Map<Seq<u8>, Seq<u8>>, height: u32, list: Seq<Seq<u8>>, p: nat, q: nat)
    requires p <= q, flush_fits_upto(kv, height, list, q),
    ensures flush_fits_upto(kv, height, list, p),
    decreases q - p,
{
    if p < q {
        lemma_fits_prefix(kv, height, list, p, (q - 1) as nat);
    }
}

/// Applying puts to a map is putting the map they build on their own over it.
proof fn lemma_apply_puts_union(kv: Map<Seq<u8>, Seq<u8>>, ps: Seq<Put>)
    ensures crate::store::apply_puts(kv, ps) == kv.union_prefer_right(crate::store::apply_puts(Map::empty(), ps)),
    decreases ps.len(),
{
    if ps.len() > 0 {
        lemma_apply_puts_union(kv, ps.drop_last());
        assert(crate::store::apply_puts(kv, ps) =~= kv.union_prefer_right(crate::store::apply_puts(Map::empty(), ps)));
    }
}

/// Applying two runs of puts is applying the first, then the second.
proof fn lemma_apply_puts_concat(kv: Map<Seq<u8>, Seq<u8>>, s: Seq<Put>, t: Seq<Put>)
    ensures crate::store::apply_puts(kv, s + t) == crate::store::apply_puts(crate::store::apply_puts(kv, s), t),
    decreases t.len(),
{
    if t.len() > 0 {
        lemma_apply_puts_concat(kv, s, t.drop_last());
        assert((s + t).drop_last() =~= s + t.drop_last());
        assert((s + t).last() == t.last());
    }
}

/// The list length stored under `lk` in the store of `ctx` with the puts
/// `pending` holds put over it.
fn length_over<T: KeyValueStoreLike>(ctx: &mut MetashrewRuntimeContext<T>, pending: &ByteMap, lk: &[u8]) -> (r: Result<u32, RuntimeError>)
    ensures
        final(ctx).db.kv() == old(ctx).db.kv(),
        final(ctx).height == old(ctx).height,
        final(ctx).block == old(ctx).block,
        final(ctx).state == old(ctx).state,
        r is Ok ==> r == stored_length(old(ctx).db.kv().union_prefer_right(pending@), lk@),
        stored_length(old(ctx).db.kv().union_prefer_right(pending@), lk@) is Err ==> r is Err,
        T::never_fails() ==> r == stored_length(old(ctx).db.kv().union_prefer_right(pending@), lk@),
{
    match pending.get(lk) {
        Some(v) => {
            if v.len() != 4 {
                return Err(RuntimeError::InvalidLength);
            }
            let n = u32_from_le4(v[0], v[1], v[2], v[3]);
            assert(v@ =~= seq![v@[0], v@[1], v@[2], v@[3]]);
            Ok(n)
        },
        None => db_length_at_key(ctx, lk),
    }
}

/// Puts `(key, value)` into the batch and into `pending`.
fn put_both<B: BatchLike>(batch: &mut B, pending: &mut ByteMap, key: &[u8], value: &[u8])
    requires old(pending)@ == crate::store::apply_puts(Map::empty(), old(batch).puts()),
    ensures
        final(batch).puts() == old(batch).puts().push((key@, value@)),
        final(pending)@ == crate::store::apply_puts(Map::empty(), final(batch).puts()),
{
    batch.put(key, value);
    pending.insert(copy_bytes(key), copy_bytes(value));
    assert(batch.puts().drop_last() =~= old(batch).puts());
}

/// Records in `batch` the puts that append `entry` under `key`, reading the
/// length from the store with the batch so far put over it.
fn append_over<T: KeyValueStoreLike>(ctx: &mut MetashrewRuntimeContext<T>, pending: &mut ByteMap, batch: &mut T::Batch, key: &[u8], entry: &[u8]) -> (r: Result<(), RuntimeError>)
    requires
        old(pending)@ == crate::store::apply_puts(Map::empty(), old(batch).puts()),
        can_append(crate::store::apply_puts(old(ctx).db.kv(), old(batch).puts()), key@),
    ensures
        final(ctx).db.kv() == old(ctx).db.kv(),
        final(ctx).height == old(ctx).height,
        final(ctx).block == old(ctx).block,
        final(ctx).state == old(ctx).state,
        final(pending)@ == crate::store::apply_puts(Map::empty(), final(batch).puts()),
        r is Ok ==> (append_puts(crate::store::apply_puts(old(ctx).db.kv(), old(batch).puts()), key@, entry@) matches Ok(p)
            && final(batch).puts() == old(batch).puts() + p),
        append_puts(crate::store::apply_puts(old(ctx).db.kv(), old(batch).puts()), key@, entry@) is Err ==> r is Err,
        T::never_fails() ==> (r is Ok <==> append_puts(crate::store::apply_puts(old(ctx).db.kv(), old(batch).puts()), key@, entry@) is Ok),
{
    proof { lemma_apply_puts_union(ctx.db.kv(), batch.puts()); }
    let lk = make_length_key(key);
    let length = length_over(ctx, pending, &lk)?;
    let entry_key = make_list_key(key, length);
    let ghost before = batch.puts();
    put_both(batch, pending, &entry_key, entry);
    let new_length = u32_to_le_bytes(length + 1);
    put_both(batch, pending, &lk, &new_length);
    assert(batch.puts() =~= before + seq![(list_key(key@, length), entry@), (length_key(key@), le32((length + 1) as u32))]);
    Ok(())
}

/// Records the key/value pairs a guest flushed at the current height: each
/// value is appended, annotated with the height, under its key, and each key
/// to the update list of the height, whose count starts afresh; every length
/// is read with the batch so far put over the store, so the i-th key goes to
/// slot i of the update list. The batch is written in one go and the run is
/// marked as having flushed.
pub fn flush_key_values<T: KeyValueStoreLike>(ctx: &mut MetashrewRuntimeContext<T>, list: &Vec<Vec<u8>>) -> (r: Result<(), RuntimeError>)
    requires flush_fits(old(ctx).db.kv(), old(ctx).height, vec_views(list@)),
    ensures
        final(ctx).height == old(ctx).height,
        final(ctx).block == old(ctx).block,
        r is Ok ==> (flush_puts(old(ctx).db.kv(), old(ctx).height, vec_views(list@)) matches Ok(p)
            && final(ctx).db.kv() == T::write_effect(old(ctx).db.kv(), p) && final(ctx).state == 1),
        flush_puts(old(ctx).db.kv(), old(ctx).height, vec_views(list@)) is Err ==>
            r is Err && final(ctx).db.kv() == old(ctx).db.kv() && final(ctx).state == old(ctx).state,
        T::never_fails() ==> (r is Ok <==> flush_puts(old(ctx).db.kv(), old(ctx).height, vec_views(list@)) is Ok),
{
    let ghost kv = ctx.db.kv();
    let ghost lv = vec_views(list@);
    let height = ctx.height;
    let mut batch = T::Batch::default();
    let mut pending = ByteMap::new();
    let update_key_arr = u32_to_le_bytes(height);
    let update_key = copy_bytes(&update_key_arr);
    let update_length_key = make_length_key(&update_key);
    let zero = u32_to_le_bytes(0);
    proof { assert(batch.puts() =~= Seq::<Put>::empty()); }
    put_both(&mut batch, &mut pending, &update_length_key, &zero);
    assert(batch.puts() =~= seq![(length_key(le32(height)), le32(0))]);
    let npairs = list.len() / 2;
    let mut p: usize = 0;
    while p < npairs
        invariant
            kv == old(ctx).db.kv(),
            lv == vec_views(list@),
            ctx.db.kv() == kv,
            ctx.height == height == old(ctx).height,
            ctx.block == old(ctx).block,
            ctx.state == old(ctx).state,
            update_key@ == le32(height),
            npairs == list@.len() / 2,
            p <= npairs,
            flush_fits_upto(kv, height, lv, npairs as nat),
            pending@ == crate::store::apply_puts(Map::empty(), batch.puts()),
            flush_puts_upto(kv, height, lv, p as nat) == Ok::<Seq<Put>, RuntimeError>(batch.puts()),
        decreases npairs - p,
    {
        assert(2 * p + 1 < list.len()) by (nonlinear_arith)
            requires p < npairs, npairs == list.len() / 2;
        let k = &list[2 * p];
        let v = &list[2 * p + 1];
        assert(lv[2 * p as int] == k@ && lv[2 * p + 1] == v@);
        proof { lemma_fits_prefix(kv, height, lv, (p + 1) as nat, npairs as nat); }
        let ghost s = batch.puts();
        let ghost kv_s = crate::store::apply_puts(kv, s);
        assert(pair_fits(kv_s, height, k@, v@));
        let entry = annotate_value(v, height);
        match append_over(ctx, &mut pending, &mut batch, k, &entry) {
            Ok(()) => {},
            Err(e) => {
                proof {
                    if flush_puts_upto(kv, height, lv, (p + 1) as nat) is Err {
                        lemma_flush_upto_err_persists(kv, height, lv, (p + 1) as nat, npairs as nat);
                    }
                }
                return Err(e);
            },
        }
        let ghost a = batch.puts().subrange(s.len() as int, batch.puts().len() as int);
        proof {
            let p0 = append_puts(kv_s, k@, entry@)->Ok_0;
            assert(batch.puts() == s + p0);
            assert(a =~= p0);
            assert(batch.puts() =~= s + a);
            lemma_apply_puts_concat(kv, s, a);
            assert(append_puts(kv_s, k@, annotated(v@, height)) == Ok::<Seq<Put>, RuntimeError>(a));
        }
        let ghost sa = batch.puts();
        match append_over(ctx, &mut pending, &mut batch, &update_key, k) {
            Ok(()) => {},
            Err(e) => {
                proof {
                    if flush_puts_upto(kv, height, lv, (p + 1) as nat) is Err {
                        lemma_flush_upto_err_persists(kv, height, lv, (p + 1) as nat, npairs as nat);
                    }
                }
                return Err(e);
            },
        }
        let ghost b = batch.puts().subrange(sa.len() as int, batch.puts().len() as int);
        proof {
            let p1 = append_puts(crate::store::apply_puts(kv, sa), le32(height), k@)->Ok_0;
            assert(batch.puts() == sa + p1);
            assert(b =~= p1);
            assert(batch.puts() =~= sa + b);
            assert(flush_pair_puts(kv_s, height, k@, v@) == Ok::<Seq<Put>, RuntimeError>(a + b));
            assert(batch.puts() =~= s + (a + b));
        }
        p = p + 1;
    }
    ctx.state = 1;
    match ctx.db.write(batch) {
        Ok(()) => Ok(()),
        Err(_) => Err(RuntimeError::Database),
    }
}

/// Once a prefix of the pairs fails, the whole flush fails.
proof fn lemma_flush_upto_err_persists(kv: Map<Seq<u8>, Seq<u8>>, height: u32, list: Seq<Seq<u8>>, p: nat, q: nat)
    requires p <= q, flush_puts_upto(kv, height, list, p) is Err,
    ensures flush_puts_upto(kv, height, list, q) is Err,
    decreases q - p,
{
    if p < q {
        lemma_flush_upto_err_persists(kv, height, list, p, (q - 1) as nat);
    }
}

/// The map that results from putting into `m` each of the first `p` pairs
/// of `list`, its value annotated with `height`, in order.
pub open spec fn preview_flush_upto(m: Map<Seq<u8>, Seq<u8>>, height: u32, list: Seq<Seq<u8>>, p: nat) -> Map<Seq<u8>, Seq<u8>>
    decreases p,
{
    if p == 0 {
        m
    } else {
        preview_flush_upto(m, height, list, (p - 1) as nat).insert(list[2 * (p - 1)], annotated(list[2 * (p - 1) + 1], height))
    }
}

/// Records the key/value pairs a guest flushed during a preview run: each
/// value, annotated with the current height, is put under its key in the
/// preview's overlay, later pairs over earlier ones. The store under the
/// preview is not written.
pub fn preview_flush_key_values<U: KeyValueStoreLike + Clone>(ctx: &mut MetashrewRuntimeContext<PreviewDBWrapper<U>>, list: &Vec<Vec<u8>>) -> (r: Result<(), RuntimeError>)
    ensures
        r is Ok,
        final(ctx).height == old(ctx).height,
        final(ctx).block == old(ctx).block,
        final(ctx).state == 1,
        final(ctx).db.underlying_kv() == old(ctx).db.underlying_kv(),
        final(ctx).db.overlay_kv() == preview_flush_upto(old(ctx).db.overlay_kv(), old(ctx).height, vec_views(list@), list@.len() / 2),
        final(ctx).db.kv() == preview_flush_upto(old(ctx).db.kv(), old(ctx).height, vec_views(list@), list@.len() / 2),
{
    let ghost lv = vec_views(list@);
    let height = ctx.height;
    ctx.state = 1;
    let npairs = list.len() / 2;
    let mut p: usize = 0;
    while p < npairs
        invariant
            lv == vec_views(list@),
            ctx.height == height == old(ctx).height,
            ctx.block == old(ctx).block,
            ctx.state == 1,
            npairs == list@.len() / 2,
            p <= npairs,
            ctx.db.underlying_kv() == old(ctx).db.underlying_kv(),
            ctx.db.overlay_kv() == preview_flush_upto(old(ctx).db.overlay_kv(), height, lv, p as nat),
            ctx.db.kv() == preview_flush_upto(old(ctx).db.kv(), height, lv, p as nat),
        decreases npairs - p,
    {
        assert(2 * p + 1 < list.len()) by (nonlinear_arith)
            requires p < npairs, npairs == list.len() / 2;
        let k = &list[2 * p];
        let v = &list[2 * p + 1];
        assert(lv[2 * p as int] == k@ && lv[2 * p + 1] == v@);
        let annotated_value = annotate_value(v, height);
        let _ = ctx.db.put(k, &annotated_value);
        p = p + 1;
    }
    Ok(())
}

/// Whether an update list was started for height `h`.
pub open spec fn has_update_list(kv: Map<Seq<u8>, Seq<u8>>, h: u32) -> bool {
    kv.contains_key(length_key(le32(h)))
}

/// The scan upwards from `h` for the first height without an update list
/// ends before it would pass `u32::MAX`.
pub open spec fn reorg_scan_ends(kv: Map<Seq<u8>, Seq<u8>>, h: u32) -> bool
    decreases u32::MAX - h,
{
    !has_update_list(kv, h) || (h < u32::MAX && reorg_scan_ends(kv, (h + 1) as u32))
}

/// The first height at or above `h` that has no update list.
pub open spec fn latest_indexed_height(kv: Map<Seq<u8>, Seq<u8>>, h: u32) -> u32
    decreases u32::MAX - h,
{
    if !has_update_list(kv, h) || h == u32::MAX { h } else { latest_indexed_height(kv, (h + 1) as u32) }
}

/// The first height at or above `height` for which no update list exists.
pub fn check_latest_block_for_reorg<T: KeyValueStoreLike>(ctx: &mut MetashrewRuntimeContext<T>, height: u32) -> (r: Result<u32, RuntimeError>)
    requires reorg_scan_ends(old(ctx).db.kv(), height),
    ensures
        final(ctx).db.kv() == old(ctx).db.kv(),
        final(ctx).height == old(ctx).height,
        final(ctx).block == old(ctx).block,
        final(ctx).state == old(ctx).state,
        r is Ok ==> r == Ok::<u32, RuntimeError>(latest_indexed_height(old(ctx).db.kv(), height)),
        r is Err ==> r == Err::<u32, RuntimeError>(RuntimeError::Database),
        T::never_fails() ==> r == Ok::<u32, RuntimeError>(latest_indexed_height(old(ctx).db.kv(), height)),
{
    let ghost kv = ctx.db.kv();
    let mut h = height;
    loop
        invariant
            kv == old(ctx).db.kv(),
            ctx.db.kv() == kv,
            ctx.height == old(ctx).height,
            ctx.block == old(ctx).block,
            ctx.state == old(ctx).state,
            reorg_scan_ends(kv, h),
            latest_indexed_height(kv, height) == latest_indexed_height(kv, h),
        decreases u32::MAX - h,
    {
        let key = u32_to_le_bytes(h);
        let lk = make_length_key(&key);
        match db_get(ctx, &lk)? {
            Some(_) => {
                h = h + 1;
            },
            None => {
                return Ok(h);
            },
        }
    }
}

/// The number of entries the update list of `h` has: the length stored
/// under the length key of `le32(h)`; a length of 2^31 or more, read as a
/// negative signed count, means none.
pub open spec fn update_count(kv: Map<Seq<u8>, Seq<u8>>, h: u32) -> Result<u32, RuntimeError> {
    match stored_length(kv, length_key(le32(h))) {
        Err(e) => Err(e),
        Ok(n) => Ok(if n >= 0x8000_0000 { 0 } else { n }),
    }
}

/// The keys held in entries `0..i` of the update list of `h`.
pub open spec fn updated_keys_upto(kv: Map<Seq<u8>, Seq<u8>>, h: u32, i: nat) -> Result<Set<Seq<u8>>, RuntimeError>
    decreases i,
{
    if i == 0 {
        Ok(Set::empty())
    } else {
        match updated_keys_upto(kv, h, (i - 1) as nat) {
            Err(e) => Err(e),
            Ok(s) => if kv.contains_key(list_key(le32(h), (i - 1) as u32)) {
                Ok(s.insert(kv[list_key(le32(h), (i - 1) as u32)]))
            } else {
                Err(RuntimeError::MissingUpdateEntry { index: (i - 1) as u32 })
            },
        }
    }
}

/// The keys recorded as updated at height `h`.
pub open spec fn updated_keys(kv: Map<Seq<u8>, Seq<u8>>, h: u32) -> Result<Set<Seq<u8>>, RuntimeError> {
    match update_count(kv, h) {
        Err(e) => Err(e),
        Ok(n) => updated_keys_upto(kv, h, n as nat),
    }
}

/// The view of a result holding a set.
pub open spec fn res_set(r: Result<ByteSet, RuntimeError>) -> Result<Set<Seq<u8>>, RuntimeError> {
    match r {
        Ok(s) => Ok(s@),
        Err(e) => Err(e),
    }
}

/// The keys recorded as updated at `height`.
pub fn db_updated_keys_for_block<T: KeyValueStoreLike>(ctx: &mut MetashrewRuntimeContext<T>, height: u32) -> (r: Result<ByteSet, RuntimeError>)
    ensures
        final(ctx).db.kv() == old(ctx).db.kv(),
        final(ctx).height == old(ctx).height,
        final(ctx).block == old(ctx).block,
        final(ctx).state == old(ctx).state,
        r is Ok ==> res_set(r) == updated_keys(old(ctx).db.kv(), height),
        updated_keys(old(ctx).db.kv(), height) is Err ==> r is Err,
        T::never_fails() ==> res_set(r) == updated_keys(old(ctx).db.kv(), height),
{
    let ghost kv = ctx.db.kv();
    let key_arr = u32_to_le_bytes(height);
    let updated_key = copy_bytes(&key_arr);
    let updated_length_key = make_length_key(&updated_key);
    let length = db_length_at_key(ctx, &updated_length_key)?;
    let n: u32 = if length >= 0x8000_0000 { 0 } else { length };
    let mut set = ByteSet::new();
    let mut i: u32 = 0;
    while i < n
        invariant
            kv == old(ctx).db.kv(),
            ctx.db.kv() == kv,
            ctx.height == old(ctx).height,
            ctx.block == old(ctx).block,
            ctx.state == old(ctx).state,
            updated_key@ == le32(height),
            update_count(kv, height) == Ok::<u32, RuntimeError>(n),
            i <= n,
            updated_keys_upto(kv, height, i as nat) == Ok::<Set<Seq<u8>>, RuntimeError>(set@),
        decreases n - i,
    {
        let list_k = make_list_key(&updated_key, i);
        match db_get(ctx, &list_k)? {
            Some(v) => {
                set.insert(v);
            },
            None => {
                proof {
                    lemma_updated_keys_err_persists(kv, height, (i + 1) as nat, n as nat);
                }
                return Err(RuntimeError::MissingUpdateEntry { index: i });
            },
        }
        i = i + 1;
    }
    Ok(set)
}

proof fn lemma_updated_keys_err_persists(kv: Map<Seq<u8>, Seq<u8>>, h: u32, i: nat, j: nat)
    requires i <= j, updated_keys_upto(kv, h, i) is Err,
    ensures updated_keys_upto(kv, h, j) == updated_keys_upto(kv, h, i),
    decreases j - i,
{
    if i < j {
        lemma_updated_keys_err_persists(kv, h, i, (j - 1) as nat);
    }
}

/// The keys recorded as updated at the first `c` heights from `from`.
pub open spec fn range_updated_keys(kv: Map<Seq<u8>, Seq<u8>>, from: u32, c: nat) -> Result<Set<Seq<u8>>, RuntimeError>
    decreases c,
{
    if c == 0 {
        Ok(Set::empty())
    } else {
        match range_updated_keys(kv, from, (c - 1) as nat) {
            Err(e) => Err(e),
            Ok(s) => match updated_keys(kv, (from + c - 1) as u32) {
                Err(e) => Err(e),
                Ok(t) => Ok(s.union(t)),
            },
        }
    }
}

/// The keys an update list reads as are exactly its entries: each of the
/// first `n` entries is present and read, and every key read is one of them.
pub proof fn lemma_updated_keys_are_entries(kv: Map<Seq<u8>, Seq<u8>>, h: u32, n: nat)
    requires n <= u32::MAX,
    ensures
        updated_keys_upto(kv, h, n) matches Ok(s) ==> {
            &&& forall|i: u32| i < n ==> #[trigger] kv.contains_key(list_key(le32(h), i)) && s.contains(kv[list_key(le32(h), i)])
            &&& forall|k: Seq<u8>| #[trigger] s.contains(k) ==> exists|i: u32| i < n && kv.contains_key(list_key(le32(h), i))
                && #[trigger] kv[list_key(le32(h), i)] == k
        },
    decreases n,
{
    if n > 0 {
        lemma_updated_keys_are_entries(kv, h, (n - 1) as nat);
        if let Ok(s) = updated_keys_upto(kv, h, n) {
            let prev = updated_keys_upto(kv, h, (n - 1) as nat)->Ok_0;
            let last = list_key(le32(h), (n - 1) as u32);
            assert(s == prev.insert(kv[last]));
            assert forall|k: Seq<u8>| #[trigger] s.contains(k) implies exists|i: u32| i < n && kv.contains_key(list_key(le32(h), i))
                && #[trigger] kv[list_key(le32(h), i)] == k by {
                if k == kv[last] {
                    assert(kv[list_key(le32(h), (n - 1) as u32)] == k);
                } else {
                    assert(prev.contains(k));
                    let i = choose|i: u32| i < n - 1 && kv.contains_key(list_key(le32(h), i)) && #[trigger] kv[list_key(le32(h), i)] == k;
                    assert(kv[list_key(le32(h), i)] == k);
                }
            }
        }
    }
}

/// Whether a read of a set succeeded and holds `k`.
pub open spec fn read_contains(r: Result<Set<Seq<u8>>, RuntimeError>, k: Seq<u8>) -> bool {
    r matches Ok(t) && t.contains(k)
}

/// The keys recorded as updated at a height are exactly the entries of its
/// update list, as many as its count says.
pub proof fn lemma_updated_keys_of_height(kv: Map<Seq<u8>, Seq<u8>>, h: u32)
    ensures
        updated_keys(kv, h) matches Ok(s) ==> update_count(kv, h) matches Ok(n) && {
            &&& forall|i: u32| i < n ==> #[trigger] kv.contains_key(list_key(le32(h), i)) && s.contains(kv[list_key(le32(h), i)])
            &&& forall|k: Seq<u8>| #[trigger] s.contains(k) ==> exists|i: u32| i < n && kv.contains_key(list_key(le32(h), i))
                && #[trigger] kv[list_key(le32(h), i)] == k
        },
{
    if let Ok(n) = update_count(kv, h) {
        lemma_updated_keys_are_entries(kv, h, n as nat);
        if let Ok(s) = updated_keys(kv, h) {
            assert(updated_keys_upto(kv, h, n as nat) == Ok::<Set<Seq<u8>>, RuntimeError>(s));
            assert forall|i: u32| i < n implies #[trigger] kv.contains_key(list_key(le32(h), i)) && s.contains(kv[list_key(le32(h), i)]) by {
                assert((i as nat) < (n as nat));
            }
        }
    }
}

/// The keys read over a range of heights are exactly those read at each
/// height of the range: reading succeeds when every height's list reads,
/// each height's keys are all in the result, and each key of the result
/// comes from one of the heights.
pub proof fn lemma_range_updated_keys_union(kv: Map<Seq<u8>, Seq<u8>>, from: u32, c: nat)
    requires from + c <= u32::MAX + 1,
    ensures
        range_updated_keys(kv, from, c) is Ok <==> forall|i: nat| i < c ==> #[trigger] updated_keys(kv, (from + i) as u32) is Ok,
        range_updated_keys(kv, from, c) matches Ok(s) ==> {
            &&& forall|i: nat, k: Seq<u8>| i < c && #[trigger] read_contains(updated_keys(kv, (from + i) as u32), k)
                ==> #[trigger] s.contains(k)
            &&& forall|k: Seq<u8>| #[trigger] s.contains(k) ==> exists|i: nat| i < c
                && #[trigger] read_contains(updated_keys(kv, (from + i) as u32), k)
        },
    decreases c,
{
    if c > 0 {
        let c1 = (c - 1) as nat;
        lemma_range_updated_keys_union(kv, from, c1);
        let last = updated_keys(kv, (from + c1) as u32);
        if range_updated_keys(kv, from, c) is Ok {
            let prev = range_updated_keys(kv, from, c1)->Ok_0;
            let t = last->Ok_0;
            let s = range_updated_keys(kv, from, c)->Ok_0;
            assert(s == prev.union(t));
            assert forall|i: nat| i < c implies #[trigger] updated_keys(kv, (from + i) as u32) is Ok by {
                if i < c1 {
                    assert(updated_keys(kv, (from + i) as u32) is Ok);
                }
            }
            assert forall|i: nat, k: Seq<u8>| i < c && #[trigger] read_contains(updated_keys(kv, (from + i) as u32), k)
                implies #[trigger] s.contains(k) by {
                if i < c1 {
                    assert(prev.contains(k));
                }
            }
            assert forall|k: Seq<u8>| #[trigger] s.contains(k) implies exists|i: nat| i < c
                && #[trigger] read_contains(updated_keys(kv, (from + i) as u32), k) by {
                if t.contains(k) {
                    assert(read_contains(updated_keys(kv, (from + c1) as u32), k));
                } else {
                    assert(prev.contains(k));
                    let i = choose|i: nat| i < c1 && #[trigger] read_contains(updated_keys(kv, (from + i) as u32), k);
                    assert(read_contains(updated_keys(kv, (from + i) as u32), k));
                }
            }
        } else {
            if range_updated_keys(kv, from, c1) is Err {
                let i = choose|i: nat| i < c1 && !(#[trigger] updated_keys(kv, (from + i) as u32) is Ok);
                assert(!(updated_keys(kv, (from + i) as u32) is Ok));
            } else {
                assert(!(updated_keys(kv, (from + c1) as u32) is Ok));
            }
        }
    }
}

/// The number of heights in `from..=to`.
pub open spec fn range_len(from: u32, to: u32) -> nat {
    if to >= from { (to - from + 1) as nat } else { 0 }
}

/// The keys recorded as updated at any height in `from..=to`.
pub fn db_updated_keys_for_block_range<T: KeyValueStoreLike>(ctx: &mut MetashrewRuntimeContext<T>, from: u32, to: u32) -> (r: Result<ByteSet, RuntimeError>)
    requires from > to || to < u32::MAX,
    ensures
        final(ctx).db.kv() == old(ctx).db.kv(),
        final(ctx).height == old(ctx).height,
        final(ctx).block == old(ctx).block,
        final(ctx).state == old(ctx).state,
        r is Ok ==> res_set(r) == range_updated_keys(old(ctx).db.kv(), from, range_len(from, to)),
        range_updated_keys(old(ctx).db.kv(), from, range_len(from, to)) is Err ==> r is Err,
        T::never_fails() ==> res_set(r) == range_updated_keys(old(ctx).db.kv(), from, range_len(from, to)),
{
    let ghost kv = ctx.db.kv();
    let mut i = from;
    let mut result = ByteSet::new();
    while to >= i
        invariant
            kv == old(ctx).db.kv(),
            ctx.db.kv() == kv,
            ctx.height == old(ctx).height,
            ctx.block == old(ctx).block,
            ctx.state == old(ctx).state,
            from > to || to < u32::MAX,
            from <= i,
            from <= to ==> i <= to + 1,
            from > to ==> i == from,
            range_updated_keys(kv, from, (i - from) as nat) == Ok::<Set<Seq<u8>>, RuntimeError>(result@),
        decreases (to as int) + 1 - (i as int),
    {
        let keys = match db_updated_keys_for_block(ctx, i) {
            Ok(k) => k,
            Err(e) => {
                proof {
                    if range_updated_keys(kv, from, (i - from + 1) as nat) is Err {
                        lemma_range_err_persists(kv, from, (i - from + 1) as nat, range_len(from, to));
                    }
                }
                return Err(e);
            },
        };
        result.extend(&keys);
        i = i + 1;
    }
    Ok(result)
}

proof fn lemma_range_err_persists(kv: Map<Seq<u8>, Seq<u8>>, from: u32, c: nat, d: nat)
    requires c <= d, range_updated_keys(kv, from, c) is Err,
    ensures range_updated_keys(kv, from, d) == range_updated_keys(kv, from, c),
    decreases d - c,
{
    if c < d {
        lemma_range_err_persists(kv, from, c, (d - 1) as nat);
    }
}

/// The map after the length of the list under `key` is set to `length`:
/// zero removes the length key, anything else is stored as it is.
pub open spec fn set_length_effect<T: KeyValueStoreLike>(kv: Map<Seq<u8>, Seq<u8>>, key: Seq<u8>, length: u32) -> Map<Seq<u8>, Seq<u8>> {
    if length == 0 {
        T::delete_effect(kv, length_key(key))
    } else {
        T::put_effect(kv, length_key(key), le32(length))
    }
}

/// Sets the stored length of the list under `key`.
pub fn db_set_length<T: KeyValueStoreLike>(ctx: &mut MetashrewRuntimeContext<T>, key: &[u8], length: u32) -> (r: Result<(), RuntimeError>)
    ensures
        final(ctx).height == old(ctx).height,
        final(ctx).block == old(ctx).block,
        final(ctx).state == old(ctx).state,
        r is Ok ==> final(ctx).db.kv() == set_length_effect::<T>(old(ctx).db.kv(), key@, length),
        r is Err ==> final(ctx).db.kv() == old(ctx).db.kv() && r == Err::<(), RuntimeError>(RuntimeError::Database),
        T::never_fails() ==> r is Ok,
{
    let lk = make_length_key(key);
    if length == 0 {
        return match ctx.db.delete(&lk) {
            Ok(()) => Ok(()),
            Err(_) => Err(RuntimeError::Database),
        };
    }
    let bits = u32_to_le_bytes(length);
    match ctx.db.put(&lk, &bits) {
        Ok(()) => Ok(()),
        Err(_) => Err(RuntimeError::Database),
    }
}

/// Deletes entries of the list under `key` from entry `n - 1` downwards
/// while they were written at or after `to_block`; gives the map afterwards
/// and the number deleted, or the error that stopped the scan.
pub open spec fn rollback_scan<T: KeyValueStoreLike>(kv: Map<Seq<u8>, Seq<u8>>, key: Seq<u8>, to_block: u32, n: nat) -> (Map<Seq<u8>, Seq<u8>>, Result<nat, RuntimeError>)
    decreases n,
{
    if n == 0 {
        (kv, Ok(0))
    } else {
        let lk_i = list_key(key, (n - 1) as u32);
        if !kv.contains_key(lk_i) {
            (kv, Ok(0))
        } else {
            let e = kv[lk_i];
            if e.len() < 4 {
                (kv, Err(RuntimeError::InvalidValueLength { len: e.len() as usize }))
            } else if to_block <= entry_height(e) {
                let (m, r) = rollback_scan::<T>(T::delete_effect(kv, lk_i), key, to_block, (n - 1) as nat);
                (m, match r { Ok(d) => Ok(d + 1), Err(x) => Err(x) })
            } else {
                (kv, Ok(0))
            }
        }
    }
}

/// The count `d` more than what `r` holds.
pub open spec fn add_count(r: Result<nat, RuntimeError>, d: nat) -> Result<nat, RuntimeError> {
    match r {
        Ok(x) => Ok(x + d),
        Err(e) => Err(e),
    }
}

/// The map after rolling `key` back to before `to_block`, and the outcome:
/// the newest entries written at or after `to_block` are deleted and the
/// shorter length recorded (the length key removed when none is left).
pub open spec fn rollback_result<T: KeyValueStoreLike>(kv: Map<Seq<u8>, Seq<u8>>, key: Seq<u8>, to_block: u32) -> (Map<Seq<u8>, Seq<u8>>, Result<(), RuntimeError>) {
    match stored_length(kv, length_key(key)) {
        Err(e) => (kv, Err(e)),
        Ok(len) => {
            let n: nat = if len >= 0x8000_0000 { 0 } else { len as nat };
            let (m, r) = rollback_scan::<T>(kv, key, to_block, n);
            match r {
                Err(e) => (m, Err(e)),
                Ok(d) => if d == 0 {
                    (m, Ok(()))
                } else {
                    (set_length_effect::<T>(m, key, (len - d) as u32), Ok(()))
                },
            }
        },
    }
}

proof fn lemma_rollback_scan_bound<T: KeyValueStoreLike>(kv: Map<Seq<u8>, Seq<u8>>, key: Seq<u8>, to_block: u32, n: nat)
    ensures rollback_scan::<T>(kv, key, to_block, n).1 matches Ok(d) ==> d <= n,
    decreases n,
{
    if n > 0 {
        let lk_i = list_key(key, (n - 1) as u32);
        if kv.contains_key(lk_i) {
            lemma_rollback_scan_bound::<T>(T::delete_effect(kv, lk_i), key, to_block, (n - 1) as nat);
        }
    }
}

/// Removes the entries of the list under `key` written at or after
/// `to_block`, newest first, and records the shorter length.
pub fn db_rollback_key<T: KeyValueStoreLike>(ctx: &mut MetashrewRuntimeContext<T>, key: &[u8], to_block: u32) -> (r: Result<(), RuntimeError>)
    requires stored_length(old(ctx).db.kv(), length_key(key@)) != Ok::<u32, RuntimeError>(0x8000_0000u32),
    ensures
        final(ctx).height == old(ctx).height,
        final(ctx).block == old(ctx).block,
        final(ctx).state == old(ctx).state,
        r is Ok ==> (final(ctx).db.kv(), r) == rollback_result::<T>(old(ctx).db.kv(), key@, to_block),
        T::never_fails() ==> (final(ctx).db.kv(), r) == rollback_result::<T>(old(ctx).db.kv(), key@, to_block),
{
    let ghost kv0 = ctx.db.kv();
    let lk = make_length_key(key);
    let length = db_length_at_key(ctx, &lk)?;
    let n0: u32 = if length >= 0x8000_0000 { 0 } else { length };
    let mut n: u32 = n0;
    let mut deleted: u32 = 0;
    loop
        invariant
            kv0 == old(ctx).db.kv(),
            ctx.height == old(ctx).height,
            ctx.block == old(ctx).block,
            ctx.state == old(ctx).state,
            stored_length(kv0, length_key(key@)) == Ok::<u32, RuntimeError>(length),
            n0 == (if length >= 0x8000_0000 { 0 } else { length }),
            n + deleted == n0,
            rollback_scan::<T>(kv0, key@, to_block, n0 as nat) == ({
                let (m, r) = rollback_scan::<T>(ctx.db.kv(), key@, to_block, n as nat);
                (m, add_count(r, deleted as nat))
            }),
        ensures
            rollback_scan::<T>(kv0, key@, to_block, n0 as nat) == (ctx.db.kv(), Ok::<nat, RuntimeError>(deleted as nat)),
        decreases n,
    {
        if n == 0 {
            break;
        }
        let idx = n - 1;
        let list_k = make_list_key(key, idx);
        let ghost cur = ctx.db.kv();
        match db_get(ctx, &list_k)? {
            Some(value) => {
                let vlen = value.len();
                if vlen < 4 {
                    return Err(RuntimeError::InvalidValueLength { len: vlen });
                }
                let value_height = u32_from_le4(value[0], value[1], value[2], value[3]);
                assert(value@.subrange(0, 4) =~= seq![value@[0], value@[1], value@[2], value@[3]]);
                if to_block <= value_height {
                    match ctx.db.delete(&list_k) {
                        Ok(()) => {},
                        Err(_) => return Err(RuntimeError::Database),
                    }
                    deleted = deleted + 1;
                    n = idx;
                } else {
                    break;
                }
            },
            None => {
                break;
            },
        }
    }
    proof { lemma_rollback_scan_bound::<T>(kv0, key@, to_block, n0 as nat); }
    if deleted != 0 {
        db_set_length(ctx, key, length - deleted)?;
    }
    Ok(())
}

/// The keys to roll back when the run at height `h` finds update lists at
/// or above `h`: `None` when there are none, else every key recorded as
/// updated from `h` up to the first height without an update list.
pub open spec fn reorg_plan(kv: Map<Seq<u8>, Seq<u8>>, h: u32) -> Result<Option<Set<Seq<u8>>>, RuntimeError> {
    let latest = latest_indexed_height(kv, h);
    if latest == h {
        Ok(None)
    } else {
        match range_updated_keys(kv, h, range_len(h, latest)) {
            Err(e) => Err(e),
            Ok(s) => Ok(Some(s)),
        }
    }
}

/// The reorganisation scan for the height of `ctx`: the keys whose entries
/// at or above that height must be rolled back, or `None`.
pub fn reorg_updated_keys<T: KeyValueStoreLike>(ctx: &mut MetashrewRuntimeContext<T>) -> (r: Result<Option<ByteSet>, RuntimeError>)
    requires
        reorg_scan_ends(old(ctx).db.kv(), old(ctx).height),
        latest_indexed_height(old(ctx).db.kv(), old(ctx).height) == old(ctx).height
            || latest_indexed_height(old(ctx).db.kv(), old(ctx).height) < u32::MAX,
    ensures
        final(ctx).db.kv() == old(ctx).db.kv(),
        final(ctx).height == old(ctx).height,
        final(ctx).block == old(ctx).block,
        final(ctx).state == old(ctx).state,
        r matches Ok(None) ==> reorg_plan(old(ctx).db.kv(), old(ctx).height) == Ok::<Option<Set<Seq<u8>>>, RuntimeError>(None),
        r matches Ok(Some(s)) ==> reorg_plan(old(ctx).db.kv(), old(ctx).height) == Ok::<Option<Set<Seq<u8>>>, RuntimeError>(Some(s@)),
        reorg_plan(old(ctx).db.kv(), old(ctx).height) is Err ==> r is Err,
        T::never_fails() ==> (r is Ok <==> reorg_plan(old(ctx).db.kv(), old(ctx).height) is Ok),
{
    let height = ctx.height;
    let latest = check_latest_block_for_reorg(ctx, height)?;
    if latest == height {
        return Ok(None);
    }
    let set = db_updated_keys_for_block_range(ctx, height, latest)?;
    Ok(Some(set))
}

/// Rolling back each key of `keys` in turn, stopping at the first error.
pub open spec fn rollback_all<T: KeyValueStoreLike>(kv: Map<Seq<u8>, Seq<u8>>, keys: Seq<Seq<u8>>, to_block: u32) -> (Map<Seq<u8>, Seq<u8>>, Result<(), RuntimeError>)
    decreases keys.len(),
{
    if keys.len() == 0 {
        (kv, Ok(()))
    } else {
        let (m, r) = rollback_result::<T>(kv, keys[0], to_block);
        match r {
            Err(e) => (m, Err(e)),
            Ok(_) => rollback_all::<T>(m, keys.drop_first(), to_block),
        }
    }
}

/// No key of `keys`, when its turn comes, has a stored length of 2^31.
pub open spec fn rollback_all_safe<T: KeyValueStoreLike>(kv: Map<Seq<u8>, Seq<u8>>, keys: Seq<Seq<u8>>, to_block: u32) -> bool
    decreases keys.len(),
{
    keys.len() == 0 || (
        stored_length(kv, length_key(keys[0])) != Ok::<u32, RuntimeError>(0x8000_0000u32)
        && (rollback_result::<T>(kv, keys[0], to_block).1 is Ok ==>
            rollback_all_safe::<T>(rollback_result::<T>(kv, keys[0], to_block).0, keys.drop_first(), to_block))
    )
}

/// Rolls back each key of `keys` to before `to_block`, in order.
pub fn rollback_keys<T: KeyValueStoreLike>(ctx: &mut MetashrewRuntimeContext<T>, keys: &Vec<Vec<u8>>, to_block: u32) -> (r: Result<(), RuntimeError>)
    requires rollback_all_safe::<T>(old(ctx).db.kv(), vec_views(keys@), to_block),
    ensures
        final(ctx).height == old(ctx).height,
        final(ctx).block == old(ctx).block,
        final(ctx).state == old(ctx).state,
        r is Ok ==> (final(ctx).db.kv(), r) == rollback_all::<T>(old(ctx).db.kv(), vec_views(keys@), to_block),
        T::never_fails() ==> (final(ctx).db.kv(), r) == rollback_all::<T>(old(ctx).db.kv(), vec_views(keys@), to_block),
{
    let ghost all = vec_views(keys@);
    assert(all.subrange(0, all.len() as int) =~= all);
    let mut i: usize = 0;
    while i < keys.len()
        invariant
            all == vec_views(keys@),
            i <= keys@.len(),
            ctx.height == old(ctx).height,
            ctx.block == old(ctx).block,
            ctx.state == old(ctx).state,
            rollback_all::<T>(old(ctx).db.kv(), all, to_block) == rollback_all::<T>(ctx.db.kv(), all.subrange(i as int, all.len() as int), to_block),
            rollback_all_safe::<T>(ctx.db.kv(), all.subrange(i as int, all.len() as int), to_block),
        decreases keys@.len() - i,
    {
        let ghost rest = all.subrange(i as int, all.len() as int);
        assert(rest[0] == keys@[i as int]@);
        assert(rest.drop_first() =~= all.subrange(i + 1, all.len() as int));
        db_rollback_key(ctx, &keys[i], to_block)?;
        i = i + 1;
    }
    assert(all.subrange(i as int, all.len() as int) =~= Seq::<Seq<u8>>::empty());
    Ok(())
}

/// The length the guest sees for its input: the block plus the 4-byte height.
pub fn host_input_len<T: KeyValueStoreLike>(ctx: &MetashrewRuntimeContext<T>) -> (n: i32)
    requires (ctx.block@.len() as i32) <= i32::MAX - 4,
    ensures n == (ctx.block@.len() as i32) + 4,
{
    (ctx.block.len() as i32) + 4
}

/// The input handed to the guest: the height, then the block.
pub fn host_input<T: KeyValueStoreLike>(ctx: &MetashrewRuntimeContext<T>) -> (out: Vec<u8>)
    ensures out@ == le32(ctx.height) + ctx.block@,
{
    let h = u32_to_le_bytes(ctx.height);
    let mut out = copy_bytes(&h);
    append_bytes(&mut out, &ctx.block);
    out
}

/// What the host writes into a guest's memory to answer a read.
#[derive(Debug, PartialEq, Eq)]
pub enum HostWrite {
    /// Write `bytes` at `offset`.
    At { offset: i64, bytes: Vec<u8> },
    /// Write nothing and mark the run as failed.
    Failure,
}

/// How the host answers a guest's read of the value of the key at
/// `key_ptr` into the buffer at `value_ptr`: the value at the current height
/// goes to `value_ptr`; a key pointer below 4 is answered with `i32::MAX`
/// written just before `value_ptr`; a failed lookup marks the run as failed.
pub fn host_get<T: KeyValueStoreLike>(ctx: &mut MetashrewRuntimeContext<T>, memory: &[u8], key_ptr: i32, value_ptr: i32) -> (w: HostWrite)
    requires
        key_ptr < 4 || arraybuffer_fits(memory@, key_ptr as int),
        key_ptr >= 4 ==> stored_length(old(ctx).db.kv(), length_key(arraybuffer_at(memory@, key_ptr as int)))
            != Ok::<u32, RuntimeError>(0x8000_0000u32),
    ensures
        final(ctx).db.kv() == old(ctx).db.kv(),
        final(ctx).height == old(ctx).height,
        final(ctx).block == old(ctx).block,
        final(ctx).state == old(ctx).state,
        key_ptr < 4 ==> (w matches HostWrite::At { offset, bytes } && offset == value_ptr - 4 && bytes@ == le32(i32::MAX as u32)),
        key_ptr >= 4 ==> match w {
            HostWrite::At { offset, bytes } => offset == value_ptr
                && value_at_block(old(ctx).db.kv(), arraybuffer_at(memory@, key_ptr as int), old(ctx).height) == Ok::<Seq<u8>, RuntimeError>(bytes@),
            HostWrite::Failure => T::never_fails() ==>
                value_at_block(old(ctx).db.kv(), arraybuffer_at(memory@, key_ptr as int), old(ctx).height) is Err,
        },
        key_ptr >= 4 && value_at_block(old(ctx).db.kv(), arraybuffer_at(memory@, key_ptr as int), old(ctx).height) is Err
            ==> w == HostWrite::Failure,
{
    match try_read_arraybuffer_as_vec(memory, key_ptr) {
        Ok(key) => {
            let height = ctx.height;
            match db_value_at_block(ctx, &key, height) {
                Ok(v) => HostWrite::At { offset: value_ptr as i64, bytes: v },
                Err(_) => HostWrite::Failure,
            }
        },
        Err(_) => {
            let bits = u32_to_le_bytes(0x7fff_ffffu32);
            HostWrite::At { offset: value_ptr as i64 - 4, bytes: copy_bytes(&bits) }
        },
    }
}

/// The length the guest sees for the value of `key` at the current height;
/// `i32::MAX` signals a failed lookup.
pub fn host_get_len<T: KeyValueStoreLike>(ctx: &mut MetashrewRuntimeContext<T>, key: &[u8]) -> (n: i32)
    requires stored_length(old(ctx).db.kv(), length_key(key@)) != Ok::<u32, RuntimeError>(0x8000_0000u32),
    ensures
        final(ctx).db.kv() == old(ctx).db.kv(),
        final(ctx).height == old(ctx).height,
        final(ctx).block == old(ctx).block,
        final(ctx).state == old(ctx).state,
        T::never_fails() ==> n == (match value_at_block(old(ctx).db.kv(), key@, old(ctx).height) {
            Ok(v) => v.len() as i32,
            Err(_) => i32::MAX,
        }),
        value_at_block(old(ctx).db.kv(), key@, old(ctx).height) is Err ==> n == i32::MAX,
        n == i32::MAX || (value_at_block(old(ctx).db.kv(), key@, old(ctx).height) matches Ok(v) && n == v.len() as i32),
{
    let height = ctx.height;
    match db_value_at_block(ctx, key, height) {
        Ok(v) => v.len() as i32,
        Err(_) => i32::MAX,
    }
}

/// The bytes of the array a guest passes by a pointer to its data, whose
/// length is stored in the four bytes before it.
pub open spec fn arraybuffer_at(data: Seq<u8>, start: int) -> Seq<u8> {
    data.subrange(start, start + le32_value(data.subrange(start - 4, start)))
}

/// The array at `start` lies within `data` and its end fits in a `u32`.
pub open spec fn arraybuffer_fits(data: Seq<u8>, start: int) -> bool {
    &&& 4 <= start <= data.len()
    &&& start + le32_value(data.subrange(start - 4, start)) <= u32::MAX
    &&& start + le32_value(data.subrange(start - 4, start)) <= data.len()
}

/// What reading the array at `start` gives: its bytes, or an error for a
/// pointer below 4.
pub open spec fn arraybuffer_read(data: Seq<u8>, start: int) -> Result<Seq<u8>, RuntimeError> {
    if start < 4 { Err(RuntimeError::MemoryError) } else { Ok(arraybuffer_at(data, start)) }
}

/// Reads the array a guest passes by pointer; a pointer below 4 is an error.
pub fn try_read_arraybuffer_as_vec(data: &[u8], data_start: i32) -> (r: Result<Vec<u8>, RuntimeError>)
    requires data_start < 4 || arraybuffer_fits(data@, data_start as int),
    ensures
        res_bytes(r) == arraybuffer_read(data@, data_start as int),
        r is Err <==> data_start < 4,
        r is Err ==> r == Err::<Vec<u8>, RuntimeError>(RuntimeError::MemoryError),
        r matches Ok(v) ==> v@ == arraybuffer_at(data@, data_start as int),
{
    if data_start < 4 {
        return Err(RuntimeError::MemoryError);
    }
    let start = data_start as usize;
    let len = u32_from_le4(data[start - 4], data[start - 3], data[start - 2], data[start - 1]);
    assert(data@.subrange(start - 4, start as int) =~= seq![data@[start - 4], data@[start - 3], data@[start - 2], data@[start - 1]]);
    let end = (data_start as u32 + len) as usize;
    Ok(sub_bytes(data, start, end))
}

/// Reads the array a guest passes by pointer, or nothing when the pointer is
/// below 4: what [`try_read_arraybuffer_as_vec`] reads, with an error read as
/// no bytes.
pub fn read_arraybuffer_as_vec(data: &[u8], data_start: i32) -> (v: Vec<u8>)
    requires data_start < 4 || arraybuffer_fits(data@, data_start as int),
    ensures
        v@ == (match arraybuffer_read(data@, data_start as int) {
            Ok(b) => b,
            Err(_) => Seq::<u8>::empty(),
        }),
        data_start < 4 ==> v@ == Seq::<u8>::empty(),
        data_start >= 4 ==> v@ == arraybuffer_at(data@, data_start as int),
{
    match try_read_arraybuffer_as_vec(data, data_start) {
        Ok(v) => v,
        Err(_) => Vec::new(),
    }
}

/// `v` followed by the encoding of `index`.
pub fn db_make_list_key(v: &Vec<u8>, index: u32) -> (r: Result<Vec<u8>, RuntimeError>)
    ensures r matches Ok(k) && k@ == list_key(v@, index),
{
    Ok(make_list_key(v, index))
}

/// The key under which the length of the list under `key` is kept.
pub fn db_make_length_key(key: &Vec<u8>) -> (r: Result<Vec<u8>, RuntimeError>)
    ensures r matches Ok(k) && k@ == length_key(key@),
{
    Ok(make_length_key(key))
}

/// The key of the update list of a height, given its encoding.
pub fn db_make_updated_key(key: &Vec<u8>) -> (k: Vec<u8>)
    ensures k@ == key@,
{
    copy_bytes(key)
}

/// The encoding of `v` as a vector.
pub fn u32_to_vec(v: u32) -> (r: Result<Vec<u8>, RuntimeError>)
    ensures r matches Ok(k) && k@ == le32(v),
{
    let a = u32_to_le_bytes(v);
    Ok(copy_bytes(&a))
}

/// `v` followed by the encoding of `block_height`.
pub fn db_annotate_value(v: &Vec<u8>, block_height: u32) -> (r: Result<Vec<u8>, RuntimeError>)
    ensures r matches Ok(k) && k@ == annotated(v@, block_height),
{
    Ok(annotate_value(v, block_height))
}

/// The value of the last put under `key` among `ps`.
pub open spec fn last_put(ps: Seq<Put>, key: Seq<u8>) -> Option<Seq<u8>>
    decreases ps.len(),
{
    if ps.len() == 0 {
        None
    } else if ps.last().0 == key {
        Some(ps.last().1)
    } else {
        last_put(ps.drop_last(), key)
    }
}

proof fn lemma_apply_puts_lookup(kv: Map<Seq<u8>, Seq<u8>>, ps: Seq<Put>, key: Seq<u8>)
    ensures
        lookup(crate::store::apply_puts(kv, ps), key) == (match last_put(ps, key) {
            Some(v) => Some(v),
            None => lookup(kv, key),
        }),
    decreases ps.len(),
{
    if ps.len() > 0 {
        lemma_apply_puts_lookup(kv, ps.drop_last(), key);
    }
}

/// Two list keys are equal only for the same list and index.
pub proof fn lemma_list_key_injective(a: Seq<u8>, i: u32, b: Seq<u8>, j: u32)
    requires list_key(a, i) == list_key(b, j),
    ensures a == b, i == j,
{
    lemma_le32_len(i);
    lemma_le32_len(j);
    let x = list_key(a, i);
    assert(x.len() == a.len() + 4);
    assert(list_key(b, j).len() == b.len() + 4);
    assert(a.len() == b.len());
    assert(a =~= x.subrange(0, a.len() as int));
    assert(b =~= x.subrange(0, b.len() as int));
    assert(le32(i) =~= x.subrange(a.len() as int, x.len() as int));
    assert(le32(j) =~= x.subrange(b.len() as int, x.len() as int));
    lemma_le32_injective(i, j);
}

proof fn lemma_scan_value_frame(kv1: Map<Seq<u8>, Seq<u8>>, kv2: Map<Seq<u8>, Seq<u8>>, key: Seq<u8>, height: u32, n: nat)
    requires
        n <= u32::MAX + 1,
        forall|i: u32| i < n ==> entry_at(kv1, key, i) == entry_at(kv2, key, i),
    ensures scan_value(kv1, key, height, n) == scan_value(kv2, key, height, n),
    decreases n,
{
    if n > 0 {
        assert(entry_at(kv1, key, (n - 1) as u32) == entry_at(kv2, key, (n - 1) as u32));
        lemma_scan_value_frame(kv1, kv2, key, height, (n - 1) as nat);
    }
}

/// What flushing the one pair `(k, v)` at height `h` does to the list of
/// `k`: its length goes up by one, the new last entry holds `v` annotated
/// with `h`, and the earlier entries stay as they were.
proof fn lemma_flush_one(kv: Map<Seq<u8>, Seq<u8>>, h: u32, k: Seq<u8>, v: Seq<u8>)
    requires
        stored_length(kv, length_key(k)) matches Ok(n) && n < u32::MAX,
        k != le32(h),
    ensures
        flush_puts(kv, h, seq![k, v]) is Ok,
        ({
            let kv2 = crate::store::apply_puts(kv, flush_puts(kv, h, seq![k, v])->Ok_0);
            let n = stored_length(kv, length_key(k))->Ok_0;
            &&& stored_length(kv2, length_key(k)) == Ok::<u32, RuntimeError>((n + 1) as u32)
            &&& lookup(kv2, list_key(k, n)) == Some(annotated(v, h))
            &&& lookup(kv2, length_key(k)) == Some(le32((n + 1) as u32))
            &&& forall|i: u32| i < n ==> #[trigger] lookup(kv2, list_key(k, i)) == lookup(kv, list_key(k, i))
            &&& lookup(kv2, length_key(le32(h))) == Some(le32(1))
            &&& lookup(kv2, list_key(le32(h), 0)) == Some(k)
        }),
{
    let uk = le32(h);
    let n = stored_length(kv, length_key(k))->Ok_0;
    let list = seq![k, v];
    assert(list.len() / 2 == 1);
    assert(list[0] == k && list[1] == v);
    let ann = annotated(v, h);
    lemma_le32_roundtrip(0);
    lemma_le32_roundtrip(1);
    // the empty update list of `h`
    let s0 = seq![(length_key(uk), le32(0))];
    let kv0 = crate::store::apply_puts(kv, s0);
    assert(kv0 == kv.insert(length_key(uk), le32(0))) by {
        reveal_with_fuel(crate::store::apply_puts, 2);
        assert(s0.drop_last() =~= Seq::<Put>::empty());
    }
    if length_key(k) == length_key(uk) { lemma_list_key_injective(k, u32::MAX, uk, u32::MAX); }
    assert(stored_length(kv0, length_key(k)) == Ok::<u32, RuntimeError>(n));
    // the value appended under `k`
    let a = seq![(list_key(k, n), ann), (length_key(k), le32((n + 1) as u32))];
    assert(append_puts(kv0, k, ann) == Ok::<Seq<Put>, RuntimeError>(a));
    let kv1 = crate::store::apply_puts(kv0, a);
    assert(kv1 == kv0.insert(list_key(k, n), ann).insert(length_key(k), le32((n + 1) as u32))) by {
        reveal_with_fuel(crate::store::apply_puts, 3);
        assert(a.drop_last().drop_last() =~= Seq::<Put>::empty());
        assert(a.drop_last() =~= seq![(list_key(k, n), ann)]);
    }
    if list_key(k, n) == length_key(uk) { lemma_list_key_injective(k, n, uk, u32::MAX); }
    assert(stored_length(kv1, length_key(uk)) == Ok::<u32, RuntimeError>(0));
    // `k` appended to the update list of `h`, in slot 0
    let b = seq![(list_key(uk, 0), k), (length_key(uk), le32(1))];
    assert(append_puts(kv1, uk, k) == Ok::<Seq<Put>, RuntimeError>(b));
    lemma_apply_puts_concat(kv, s0, a);
    assert(flush_pair_puts(kv0, h, k, v) == Ok::<Seq<Put>, RuntimeError>(a + b));
    reveal_with_fuel(flush_puts_upto, 2);
    assert(flush_puts_upto(kv, h, list, 0) == Ok::<Seq<Put>, RuntimeError>(s0));
    assert(flush_puts(kv, h, list) == Ok::<Seq<Put>, RuntimeError>(s0 + (a + b)));
    let ps = flush_puts(kv, h, list)->Ok_0;
    assert(ps =~= seq![(length_key(uk), le32(0)), (list_key(k, n), ann), (length_key(k), le32((n + 1) as u32)),
        (list_key(uk, 0), k), (length_key(uk), le32(1))]);
    let kv2 = crate::store::apply_puts(kv, ps);
    // the new length of `k`
    assert(last_put(ps, length_key(k)) == Some(le32((n + 1) as u32))) by {
        if length_key(k) == length_key(uk) { lemma_list_key_injective(k, u32::MAX, uk, u32::MAX); }
        if length_key(k) == list_key(uk, 0) { lemma_list_key_injective(k, u32::MAX, uk, 0); }
        reveal_with_fuel(last_put, 6);
        assert(ps.drop_last().drop_last().last() == (length_key(k), le32((n + 1) as u32)));
    }
    lemma_apply_puts_lookup(kv, ps, length_key(k));
    lemma_le32_roundtrip((n + 1) as u32);
    assert(stored_length(kv2, length_key(k)) == Ok::<u32, RuntimeError>((n + 1) as u32));
    // the new entry of `k`
    assert(last_put(ps, list_key(k, n)) == Some(ann)) by {
        if list_key(k, n) == length_key(uk) { lemma_list_key_injective(k, n, uk, u32::MAX); }
        if list_key(k, n) == list_key(uk, 0) { lemma_list_key_injective(k, n, uk, 0); }
        if list_key(k, n) == length_key(k) { lemma_list_key_injective(k, n, k, u32::MAX); }
        reveal_with_fuel(last_put, 6);
    }
    lemma_apply_puts_lookup(kv, ps, list_key(k, n));
    assert(entry_at(kv2, k, n) == ann);
    // the update list of `h` holds `k` alone
    assert(last_put(ps, length_key(uk)) == Some(le32(1))) by { reveal_with_fuel(last_put, 2); }
    lemma_apply_puts_lookup(kv, ps, length_key(uk));
    assert(last_put(ps, list_key(uk, 0)) == Some(k)) by {
        if list_key(uk, 0) == length_key(uk) { lemma_list_key_injective(uk, 0, uk, u32::MAX); }
        reveal_with_fuel(last_put, 3);
    }
    lemma_apply_puts_lookup(kv, ps, list_key(uk, 0));
    // older entries are untouched
    assert forall|i: u32| i < n implies #[trigger] lookup(kv2, list_key(k, i)) == lookup(kv, list_key(k, i)) by {
        let x = list_key(k, i);
        if x == length_key(uk) { lemma_list_key_injective(k, i, uk, u32::MAX); }
        if x == list_key(uk, 0) { lemma_list_key_injective(k, i, uk, 0); }
        if x == length_key(k) { lemma_list_key_injective(k, i, k, u32::MAX); }
        if x == list_key(k, n) { lemma_list_key_injective(k, i, k, n); }
        reveal_with_fuel(last_put, 6);
        assert(last_put(ps, x) == None::<Seq<u8>>);
        lemma_apply_puts_lookup(kv, ps, x);
    }
}

/// A flush lists its keys at its height: after the pair `(k, v)` is
/// flushed at height `h`, the keys recorded as updated at `h` are `k` alone.
pub proof fn lemma_flush_lists_key(kv: Map<Seq<u8>, Seq<u8>>, h: u32, k: Seq<u8>, v: Seq<u8>)
    requires
        stored_length(kv, length_key(k)) matches Ok(n) && n < u32::MAX,
        k != le32(h),
    ensures
        flush_puts(kv, h, seq![k, v]) is Ok,
        updated_keys(crate::store::apply_puts(kv, flush_puts(kv, h, seq![k, v])->Ok_0), h) == Ok::<Set<Seq<u8>>, RuntimeError>(set![k]),
{
    lemma_flush_one(kv, h, k, v);
    let kv2 = crate::store::apply_puts(kv, flush_puts(kv, h, seq![k, v])->Ok_0);
    lemma_le32_roundtrip(1);
    assert(update_count(kv2, h) == Ok::<u32, RuntimeError>(1));
    reveal_with_fuel(updated_keys_upto, 2);
    assert(updated_keys_upto(kv2, h, 1) == Ok::<Set<Seq<u8>>, RuntimeError>(Set::<Seq<u8>>::empty().insert(k)));
    assert(Set::<Seq<u8>>::empty().insert(k) =~= set![k]);
}

/// Reading back a flush: after the pair `(k, v)` is flushed at height `h`
/// into a store whose writes apply their puts in order, `k` read as of any
/// height at or above `h` gives `v`, and read as of an earlier height gives
/// what it gave before the flush. The key must differ from the update-list
/// key `le32(h)` of the height, and its list must leave room for one more
/// entry below a signed count.
pub proof fn lemma_read_after_flush(kv: Map<Seq<u8>, Seq<u8>>, h: u32, k: Seq<u8>, v: Seq<u8>, q: u32)
    requires
        stored_length(kv, length_key(k)) matches Ok(n) && n < 0x7fff_ffff,
        k != le32(h),
    ensures
        flush_puts(kv, h, seq![k, v]) is Ok,
        value_at_block(crate::store::apply_puts(kv, flush_puts(kv, h, seq![k, v])->Ok_0), k, q)
            == (if q >= h { Ok::<Seq<u8>, RuntimeError>(v) } else { value_at_block(kv, k, q) }),
{
    lemma_flush_one(kv, h, k, v);
    let n = stored_length(kv, length_key(k))->Ok_0;
    let kv2 = crate::store::apply_puts(kv, flush_puts(kv, h, seq![k, v])->Ok_0);
    assert(entry_at(kv2, k, n) == annotated(v, h));
    lemma_annotated_split_local(v, h);
    assert forall|i: u32| i < n implies entry_at(kv2, k, i) == entry_at(kv, k, i) by {
        assert(lookup(kv2, list_key(k, i)) == lookup(kv, list_key(k, i)));
    }
    lemma_scan_value_frame(kv2, kv, k, q, n as nat);
    reveal_with_fuel(scan_value, 2);
}

/// Rolling back undoes a flush: after the pair `(k, v)` is flushed at height
/// `h` into an in-memory store, rolling `k` back to `h` succeeds and leaves
/// every read of `k` as it was before the flush. The newest entry of `k`
/// before the flush must have been written before `h`; the key must differ
/// from the update-list key `le32(h)`, and its list must leave room for one
/// more entry below a signed count.
pub proof fn lemma_rollback_undoes_flush(kv: Map<Seq<u8>, Seq<u8>>, h: u32, k: Seq<u8>, v: Seq<u8>, q: u32)
    requires
        stored_length(kv, length_key(k)) matches Ok(n) && n < 0x7fff_ffff
            && (n > 0 ==> entry_at(kv, k, (n - 1) as u32).len() >= 4 && entry_height(entry_at(kv, k, (n - 1) as u32)) < h),
        k != le32(h),
    ensures
        flush_puts(kv, h, seq![k, v]) is Ok,
        ({
            let kv2 = crate::store::apply_puts(kv, flush_puts(kv, h, seq![k, v])->Ok_0);
            let (kv3, r) = rollback_result::<MemStore>(kv2, k, h);
            &&& r is Ok
            &&& value_at_block(kv3, k, q) == value_at_block(kv, k, q)
        }),
{
    lemma_flush_one(kv, h, k, v);
    let n = stored_length(kv, length_key(k))->Ok_0;
    let kv2 = crate::store::apply_puts(kv, flush_puts(kv, h, seq![k, v])->Ok_0);
    let ann = annotated(v, h);
    lemma_annotated_split_local(v, h);
    // the scan deletes the new entry and stops at the one below it
    let kvd = kv2.remove(list_key(k, n));
    assert(rollback_scan::<MemStore>(kvd, k, h, n as nat) == (kvd, Ok::<nat, RuntimeError>(0))) by {
        if n > 0 {
            let x = list_key(k, (n - 1) as u32);
            if x == list_key(k, n) { lemma_list_key_injective(k, (n - 1) as u32, k, n); }
            assert(lookup(kv2, x) == lookup(kv, x));
        }
    }
    assert(rollback_scan::<MemStore>(kv2, k, h, (n + 1) as nat) == (kvd, Ok::<nat, RuntimeError>(1)));
    let kv3 = rollback_result::<MemStore>(kv2, k, h).0;
    assert(kv3 == set_length_effect::<MemStore>(kvd, k, n));
    // the length is back to `n`
    lemma_le32_roundtrip(n);
    if length_key(k) == list_key(k, n) { lemma_list_key_injective(k, u32::MAX, k, n); }
    assert(stored_length(kv3, length_key(k)) == Ok::<u32, RuntimeError>(n));
    // and the entries below it are those of before the flush
    assert forall|i: u32| i < n implies entry_at(kv3, k, i) == entry_at(kv, k, i) by {
        let x = list_key(k, i);
        if x == list_key(k, n) { lemma_list_key_injective(k, i, k, n); }
        if x == length_key(k) { lemma_list_key_injective(k, i, k, u32::MAX); }
        assert(lookup(kv2, x) == lookup(kv, x));
    }
    lemma_scan_value_frame(kv3, kv, k, q, n as nat);
}

proof fn lemma_annotated_split_local(value: Seq<u8>, height: u32)
    ensures
        annotated(value, height).len() >= 4,
        entry_height(annotated(value, height)) == height,
        entry_value(annotated(value, height)) == value,
{
    crate::codec::lemma_annotated_split(value, height);
}

} // verus!
