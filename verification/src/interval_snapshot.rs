//! Snapshots taken at fixed block intervals: the key changes of an interval
//! are collected, written as a diff compressed with zstd, and listed in a
//! repository index; a node syncing from such a repository decompresses and
//! applies the diffs in order.
//!
//! A diff is a run of records, each a key and a value preceded by its
//! length as four little-endian bytes.

use vstd::prelude::*;
use crate::byte_map::{entries_map, entry_views, keys_distinct, lookup, opt_view, ByteMap};
use crate::bytes::{append_bytes, copy_bytes, sub_bytes, vec_views};
use crate::compression::{zstd_compressed, zstd_decode, zstd_decompressed, zstd_encode};
use crate::codec::{decimal, le32, le32_value, push_decimal, u32_to_le_bytes, u32_from_le4, lemma_le32_roundtrip};
use crate::hashing::{hex_bytes, hex_decode, is_hex_text};
use crate::store::KeyValueStoreLike;

verus! {

/// `std::path::PathBuf`, which configurations carry through without
/// looking inside.
#[verifier::external_type_specification]
#[verifier::external_body]
pub struct ExPathBuf(std::path::PathBuf);

/// `PathBuf::clone`, which the derived `Clone` of the configuration calls;
/// nothing is claimed of the copy.
pub assume_specification[<std::path::PathBuf as std::clone::Clone>::clone](p: &std::path::PathBuf) -> std::path::PathBuf;

/// How snapshots are taken.
#[derive(Debug, Clone)]
pub struct SnapshotConfig {
    pub interval: u32,
    pub directory: std::path::PathBuf,
    pub enabled: bool,
}

/// The state root at a height.
#[derive(Debug, Clone)]
pub struct StateRoot {
    pub height: u32,
    pub root: String,
    pub timestamp: u64,
}

/// What describes the snapshot of one interval.
#[derive(Debug, Clone)]
pub struct SnapshotMetadata {
    pub start_height: u32,
    pub end_height: u32,
    pub state_root: String,
    pub diff_file: String,
    pub wasm_file: String,
    pub wasm_hash: String,
    pub created_at: u64,
}

/// The list of interval snapshots in a repository.
#[derive(Debug, Clone)]
pub struct RepoIndex {
    pub intervals: Vec<SnapshotMetadata>,
    pub latest_height: u32,
    pub created_at: u64,
}

/// Collects the key changes of the current interval.
pub struct SnapshotManager {
    pub config: SnapshotConfig,
    pub current_wasm: Option<std::path::PathBuf>,
    pub current_wasm_hash: Option<String>,
    pub last_snapshot_height: u32,
    pub key_changes: ByteMap,
}

/// One diff record.
pub open spec fn diff_record(k: Seq<u8>, v: Seq<u8>) -> Seq<u8> {
    le32(k.len() as u32) + k + le32(v.len() as u32) + v
}

/// The diff of a list of key changes.
pub open spec fn diff_of(pairs: Seq<(Seq<u8>, Seq<u8>)>) -> Seq<u8>
    decreases pairs.len(),
{
    if pairs.len() == 0 {
        Seq::empty()
    } else {
        diff_of(pairs.drop_last()) + diff_record(pairs.last().0, pairs.last().1)
    }
}

/// The records read from `data` from position `i` on; reading stops at the
/// first record that does not fit.
pub open spec fn parse_diff_from(data: Seq<u8>, i: int) -> Seq<(Seq<u8>, Seq<u8>)>
    decreases data.len() - i,
{
    if i < 0 || i + 4 > data.len() {
        Seq::empty()
    } else {
        let kl = le32_value(data.subrange(i, i + 4)) as int;
        let k_end = i + 4 + kl;
        if k_end > data.len() || k_end + 4 > data.len() {
            Seq::empty()
        } else {
            let vl = le32_value(data.subrange(k_end, k_end + 4)) as int;
            let v_end = k_end + 4 + vl;
            if v_end > data.len() {
                Seq::empty()
            } else {
                seq![(data.subrange(i + 4, k_end), data.subrange(k_end + 4, v_end))] + parse_diff_from(data, v_end)
            }
        }
    }
}

/// `/__INTERNAL/tip-height`
pub open spec fn tip_key() -> Seq<u8> {
    seq![47u8, 95u8, 95u8, 73u8, 78u8, 84u8, 69u8, 82u8, 78u8, 65u8, 76u8, 47u8, 116u8, 105u8, 112u8, 45u8, 104u8,
        101u8, 105u8, 103u8, 104u8, 116u8]
}

/// The key under which a synced interval's state root is stored:
/// `smt:root::` and the height in decimal.
pub open spec fn synced_root_key(height: u32) -> Seq<u8> {
    seq![115u8, 109u8, 116u8, 58u8, 114u8, 111u8, 111u8, 116u8, 58u8, 58u8] + decimal(height as nat)
}

/// The key holding the number of keys updated at `height`: the height in
/// decimal followed by `FFFFFFFF`.
pub open spec fn updates_length_key(height: u32) -> Seq<u8> {
    decimal(height as nat) + seq![70u8, 70u8, 70u8, 70u8, 70u8, 70u8, 70u8, 70u8]
}

/// The key holding the `i`-th key updated at `height`: the two numbers in
/// decimal, one after the other.
pub open spec fn updates_entry_key(height: u32, i: u32) -> Seq<u8> {
    decimal(height as nat) + decimal(i as nat)
}

/// The number of keys recorded as updated at `height`, if recorded.
pub open spec fn updates_length(kv: Map<Seq<u8>, Seq<u8>>, height: u32) -> u32 {
    match lookup(kv, updates_length_key(height)) {
        Some(b) => if b.len() >= 4 { le32_value(b.subrange(0, 4)) } else { 0 },
        None => 0,
    }
}

/// The first `n` recorded keys updated at `height` that are present.
pub open spec fn updates_upto(kv: Map<Seq<u8>, Seq<u8>>, height: u32, n: nat) -> Seq<Seq<u8>>
    decreases n,
{
    if n == 0 {
        Seq::empty()
    } else {
        let rest = updates_upto(kv, height, (n - 1) as nat);
        match lookup(kv, updates_entry_key(height, (n - 1) as u32)) {
            Some(k) => rest.push(k),
            None => rest,
        }
    }
}

/// The recorded keys updated at the heights from `start` up to, but not
/// including, `stop`.
pub open spec fn updates_between(kv: Map<Seq<u8>, Seq<u8>>, start: nat, stop: nat) -> Seq<Seq<u8>>
    decreases stop - start,
{
    if stop <= start || stop > u32::MAX + 1 {
        Seq::empty()
    } else {
        let h = (stop - 1) as u32;
        updates_between(kv, start, (stop - 1) as nat) + updates_upto(kv, h, updates_length(kv, h) as nat)
    }
}

/// `m` with each of `keys` that has a value in `kv` set to that value.
pub open spec fn take_values(m: Map<Seq<u8>, Seq<u8>>, kv: Map<Seq<u8>, Seq<u8>>, keys: Seq<Seq<u8>>) -> Map<Seq<u8>, Seq<u8>>
    decreases keys.len(),
{
    if keys.len() == 0 {
        m
    } else {
        let before = take_values(m, kv, keys.drop_last());
        match lookup(kv, keys.last()) {
            Some(v) => before.insert(keys.last(), v),
            None => before,
        }
    }
}

/// Whether `k` is recorded as the `i`-th key updated at `h`, within the
/// recorded count.
pub open spec fn listed_at(kv: Map<Seq<u8>, Seq<u8>>, h: u32, i: u32, k: Seq<u8>) -> bool {
    i < updates_length(kv, h) && lookup(kv, updates_entry_key(h, i)) == Some(k)
}

proof fn lemma_updates_upto_lists(kv: Map<Seq<u8>, Seq<u8>>, h: u32, n: nat)
    requires n <= u32::MAX + 1,
    ensures
        forall|i: u32, k: Seq<u8>| #![trigger updates_upto(kv, h, n).contains(k), updates_entry_key(h, i)]
            i < n && lookup(kv, updates_entry_key(h, i)) == Some(k) ==> updates_upto(kv, h, n).contains(k),
        forall|k: Seq<u8>| #[trigger] updates_upto(kv, h, n).contains(k) ==> exists|i: u32| i < n
            && lookup(kv, updates_entry_key(h, i)) == Some(k),
    decreases n,
{
    if n > 0 {
        let n1 = (n - 1) as nat;
        lemma_updates_upto_lists(kv, h, n1);
        let rest = updates_upto(kv, h, n1);
        assert forall|i: u32, k: Seq<u8>| #![trigger updates_upto(kv, h, n).contains(k), updates_entry_key(h, i)]
            i < n && lookup(kv, updates_entry_key(h, i)) == Some(k) implies updates_upto(kv, h, n).contains(k) by {
            if i < n1 {
                assert(rest.contains(k));
                let j = choose|j: int| 0 <= j < rest.len() && rest[j] == k;
                assert(updates_upto(kv, h, n)[j] == k);
            } else {
                assert(updates_upto(kv, h, n) == rest.push(k));
                assert(updates_upto(kv, h, n)[rest.len() as int] == k);
            }
        }
        assert forall|k: Seq<u8>| #[trigger] updates_upto(kv, h, n).contains(k) implies exists|i: u32| i < n
            && lookup(kv, updates_entry_key(h, i)) == Some(k) by {
            let j = choose|j: int| 0 <= j < updates_upto(kv, h, n).len() && updates_upto(kv, h, n)[j] == k;
            if j < rest.len() {
                assert(rest[j] == k);
                assert(rest.contains(k));
            } else {
                assert(lookup(kv, updates_entry_key(h, n1 as u32)) == Some(k));
            }
        }
    }
}

proof fn lemma_updates_between_lists(kv: Map<Seq<u8>, Seq<u8>>, start: nat, stop: nat)
    requires stop <= u32::MAX + 1,
    ensures
        forall|h: u32, i: u32, k: Seq<u8>| start <= h < stop && #[trigger] listed_at(kv, h, i, k)
            ==> updates_between(kv, start, stop).contains(k),
        forall|k: Seq<u8>| #[trigger] updates_between(kv, start, stop).contains(k) ==> exists|h: u32, i: u32| start <= h < stop
            && listed_at(kv, h, i, k),
    decreases stop - start,
{
    if stop > start {
        let s1 = (stop - 1) as nat;
        let h0 = s1 as u32;
        lemma_updates_between_lists(kv, start, s1);
        lemma_updates_upto_lists(kv, h0, updates_length(kv, h0) as nat);
        let a = updates_between(kv, start, s1);
        let b = updates_upto(kv, h0, updates_length(kv, h0) as nat);
        assert(updates_between(kv, start, stop) == a + b);
        assert forall|h: u32, i: u32, k: Seq<u8>| start <= h < stop && #[trigger] listed_at(kv, h, i, k)
            implies updates_between(kv, start, stop).contains(k) by {
            if h < s1 {
                assert(a.contains(k));
                let j = choose|j: int| 0 <= j < a.len() && a[j] == k;
                assert((a + b)[j] == k);
            } else {
                assert(b.contains(k));
                let j = choose|j: int| 0 <= j < b.len() && b[j] == k;
                assert((a + b)[a.len() + j] == k);
            }
        }
        assert forall|k: Seq<u8>| #[trigger] updates_between(kv, start, stop).contains(k) implies exists|h: u32, i: u32| start <= h < stop
            && listed_at(kv, h, i, k) by {
            let j = choose|j: int| 0 <= j < (a + b).len() && (a + b)[j] == k;
            if j < a.len() {
                assert(a[j] == k);
                assert(a.contains(k));
            } else {
                assert(b[j - a.len()] == k);
                assert(b.contains(k));
                let i = choose|i: u32| i < updates_length(kv, h0) && lookup(kv, updates_entry_key(h0, i)) == Some(k);
                assert(listed_at(kv, h0, i, k));
            }
        }
    }
}

proof fn lemma_take_values(m: Map<Seq<u8>, Seq<u8>>, kv: Map<Seq<u8>, Seq<u8>>, keys: Seq<Seq<u8>>)
    ensures
        forall|k: Seq<u8>| keys.contains(k) && kv.contains_key(k) ==> #[trigger] take_values(m, kv, keys).contains_key(k)
            && take_values(m, kv, keys)[k] == kv[k],
        forall|k: Seq<u8>| #[trigger] take_values(m, kv, keys).contains_key(k) ==> (
            (keys.contains(k) && kv.contains_key(k) && take_values(m, kv, keys)[k] == kv[k])
            || (!(keys.contains(k) && kv.contains_key(k)) && m.contains_key(k) && take_values(m, kv, keys)[k] == m[k])),
    decreases keys.len(),
{
    if keys.len() > 0 {
        let init = keys.drop_last();
        let last = keys.last();
        lemma_take_values(m, kv, init);
        let before = take_values(m, kv, init);
        let after = take_values(m, kv, keys);
        assert forall|k: Seq<u8>| keys.contains(k) <==> (init.contains(k) || k == last) by {
            if keys.contains(k) {
                let j = choose|j: int| 0 <= j < keys.len() && keys[j] == k;
                if j < keys.len() - 1 {
                    assert(init[j] == k);
                }
            }
            if init.contains(k) {
                let j = choose|j: int| 0 <= j < init.len() && init[j] == k;
                assert(keys[j] == k);
            }
            if k == last {
                assert(keys[keys.len() - 1] == k);
            }
        }
        assert forall|k: Seq<u8>| keys.contains(k) && kv.contains_key(k) implies #[trigger] after.contains_key(k)
            && after[k] == kv[k] by {
            if k == last {
            } else {
                assert(init.contains(k));
                assert(before.contains_key(k));
            }
        }
        assert forall|k: Seq<u8>| #[trigger] after.contains_key(k) implies (
            (keys.contains(k) && kv.contains_key(k) && after[k] == kv[k])
            || (!(keys.contains(k) && kv.contains_key(k)) && m.contains_key(k) && after[k] == m[k])) by {
            if k == last && kv.contains_key(k) {
            } else {
                assert(before.contains_key(k));
                assert(after[k] == before[k]);
            }
        }
    }
}

/// Tracking an interval takes in every listed key: for every height from
/// `start` to `end` (both included), each key recorded as updated there
/// that has a value in the store ends up mapped to that value; and every
/// key taken in is such a key, or was already there.
pub proof fn lemma_interval_tracks_listed_keys(m: Map<Seq<u8>, Seq<u8>>, kv: Map<Seq<u8>, Seq<u8>>, start: u32, end: u32)
    ensures
        forall|h: u32, i: u32, k: Seq<u8>| start <= h <= end && #[trigger] listed_at(kv, h, i, k) && kv.contains_key(k)
            ==> take_values(m, kv, updates_between(kv, start as nat, end as nat + 1)).contains_key(k)
                && take_values(m, kv, updates_between(kv, start as nat, end as nat + 1))[k] == kv[k],
        forall|k: Seq<u8>| #[trigger] take_values(m, kv, updates_between(kv, start as nat, end as nat + 1)).contains_key(k) ==>
            m.contains_key(k) || (kv.contains_key(k) && exists|h: u32, i: u32| start <= h <= end && listed_at(kv, h, i, k)),
{
    let ks = updates_between(kv, start as nat, end as nat + 1);
    lemma_updates_between_lists(kv, start as nat, end as nat + 1);
    lemma_take_values(m, kv, ks);
    assert forall|h: u32, i: u32, k: Seq<u8>| start <= h <= end && #[trigger] listed_at(kv, h, i, k) && kv.contains_key(k)
        implies take_values(m, kv, ks).contains_key(k) && take_values(m, kv, ks)[k] == kv[k] by {
        assert(ks.contains(k));
    }
    assert forall|k: Seq<u8>| #[trigger] take_values(m, kv, ks).contains_key(k) implies
        m.contains_key(k) || (kv.contains_key(k) && exists|h: u32, i: u32| start <= h <= end && listed_at(kv, h, i, k)) by {
        if ks.contains(k) {
            let (h, i) = choose|h: u32, i: u32| start <= h < end as nat + 1 && listed_at(kv, h, i, k);
            assert(start <= h <= end && listed_at(kv, h, i, k));
        }
    }
}

impl SnapshotManager {
    /// A manager that has taken no snapshot yet.
    pub fn new(config: SnapshotConfig) -> (m: Self)
        ensures
            m.config.enabled == config.enabled,
            m.config.interval == config.interval,
            m.current_wasm is None,
            m.current_wasm_hash is None,
            m.last_snapshot_height == 0,
            m.key_changes@ == Map::<Seq<u8>, Seq<u8>>::empty(),
    {
        SnapshotManager {
            config,
            current_wasm: None,
            current_wasm_hash: None,
            last_snapshot_height: 0,
            key_changes: ByteMap::new(),
        }
    }

    /// Records the latest value of `key` for the current interval, when
    /// snapshots are enabled.
    pub fn track_key_change(&mut self, key: Vec<u8>, value: Vec<u8>)
        ensures
            final(self).key_changes@ == (if old(self).config.enabled {
                old(self).key_changes@.insert(key@, value@)
            } else {
                old(self).key_changes@
            }),
            final(self).config == old(self).config,
            final(self).current_wasm == old(self).current_wasm,
            final(self).current_wasm_hash == old(self).current_wasm_hash,
            final(self).last_snapshot_height == old(self).last_snapshot_height,
    {
        if self.config.enabled {
            self.key_changes.insert(key, value);
        }
    }

    /// Whether a snapshot is due at `height`: snapshots are enabled, the
    /// height is not 0, and it is a multiple of the interval.
    pub fn should_create_snapshot(&self, height: u32) -> (r: bool)
        requires self.config.enabled && height != 0 ==> self.config.interval != 0,
        ensures r == (self.config.enabled && height != 0 && height % self.config.interval == 0),
    {
        if !self.config.enabled || height == 0 {
            return false;
        }
        height % self.config.interval == 0
    }

    /// The diff of the key changes of the current interval, in the order the
    /// keys were first recorded.
    pub fn diff_data(&self) -> (d: Vec<u8>)
        ensures d@ == diff_of(self.key_changes.entry_seq()),
    {
        let pairs = self.key_changes.pairs();
        encode_diff(&pairs)
    }

    /// The diff of the key changes of the current interval, compressed at
    /// [`DIFF_COMPRESSION_LEVEL`]: what an interval's `diff.bin.zst` holds.
    pub fn compressed_diff(&self) -> (c: Vec<u8>)
        ensures
            c@ == zstd_compressed(diff_of(self.key_changes.entry_seq()), DIFF_COMPRESSION_LEVEL),
            zstd_decompressed(c@) == Some(diff_of(self.key_changes.entry_seq())),
    {
        let diff = self.diff_data();
        zstd_encode(&diff, DIFF_COMPRESSION_LEVEL)
    }

    /// Starts the next interval after a snapshot at `height`.
    pub fn finish_interval(&mut self, height: u32)
        ensures
            final(self).last_snapshot_height == height,
            final(self).key_changes@ == Map::<Seq<u8>, Seq<u8>>::empty(),
            final(self).config.enabled == old(self).config.enabled,
            final(self).config.interval == old(self).config.interval,
    {
        self.last_snapshot_height = height;
        self.key_changes.clear();
    }

    /// Records, for snapshots, the current value of every key listed as
    /// updated at the heights `start_height..=end_height`.
    pub fn track_db_changes<S: KeyValueStoreLike>(&mut self, db: &mut S, start_height: u32, end_height: u32)
        -> (r: Result<(), S::Error>)
        ensures
            final(db).kv() == old(db).kv(),
            final(self).config.enabled == old(self).config.enabled,
            final(self).last_snapshot_height == old(self).last_snapshot_height,
            r is Ok ==> final(self).key_changes@ == (if old(self).config.enabled {
                take_values(old(self).key_changes@, old(db).kv(),
                    updates_between(old(db).kv(), start_height as nat, end_height as nat + 1))
            } else {
                old(self).key_changes@
            }),
            S::never_fails() ==> r is Ok,
    {
        if !self.config.enabled {
            return Ok(());
        }
        let ghost kv = db.kv();
        let mut updated_keys: Vec<Vec<u8>> = Vec::new();
        let mut h: u64 = start_height as u64;
        let stop: u64 = end_height as u64 + 1;
        assert(vec_views(updated_keys@) =~= Seq::<Seq<u8>>::empty());
        if h > stop {
            h = stop;
        }
        while h < stop
            invariant
                db.kv() == kv,
                kv == old(db).kv(),
                start_height as u64 <= h || h == stop,
                h <= stop,
                stop == end_height as u64 + 1,
                vec_views(updated_keys@) == updates_between(kv, start_height as nat, h as nat),
                self.config.enabled,
                self.key_changes@ == old(self).key_changes@,
                self.last_snapshot_height == old(self).last_snapshot_height,
            decreases stop - h,
        {
            let height = h as u32;
            let length_key = updates_length_key_bytes(height);
            let length: u32 = match db.get(&length_key) {
                Ok(Some(b)) => {
                    if b.len() >= 4 {
                        proof { lemma_le32_roundtrip(0); }
                        let v = u32_from_le4(b[0], b[1], b[2], b[3]);
                        assert(b@.subrange(0, 4) =~= seq![b@[0], b@[1], b@[2], b@[3]]);
                        v
                    } else {
                        0
                    }
                },
                Ok(None) => 0,
                Err(e) => return Err(e),
            };
            assert(length == updates_length(kv, height));
            let ghost before = vec_views(updated_keys@);
            assert(start_height as u64 <= h);
            assert(height as nat == h as nat);
            let mut i: u32 = 0;
            while i < length
                invariant
                    db.kv() == kv,
                    kv == old(db).kv(),
                    i <= length,
                    length == updates_length(kv, height),
                    vec_views(updated_keys@) == before + updates_upto(kv, height, i as nat),
                decreases length - i,
            {
                let list_key = updates_entry_key_bytes(height, i);
                match db.get(&list_key) {
                    Ok(Some(key_bytes)) => {
                        let ghost pre = vec_views(updated_keys@);
                        updated_keys.push(key_bytes);
                        assert(vec_views(updated_keys@) =~= pre.push(lookup(kv, updates_entry_key(height, i))->0));
                    },
                    Ok(None) => {},
                    Err(e) => return Err(e),
                }
                assert(updates_upto(kv, height, (i + 1) as nat) =~= {
                    let rest = updates_upto(kv, height, i as nat);
                    match lookup(kv, updates_entry_key(height, i)) {
                        Some(k) => rest.push(k),
                        None => rest,
                    }
                });
                assert(before + updates_upto(kv, height, (i + 1) as nat) =~= vec_views(updated_keys@));
                i = i + 1;
            }
            h = h + 1;
            assert(vec_views(updated_keys@) =~= updates_between(kv, start_height as nat, h as nat));
        }
        let ghost keys = vec_views(updated_keys@);
        let ghost m0 = self.key_changes@;
        let mut j: usize = 0;
        while j < updated_keys.len()
            invariant
                db.kv() == kv,
                kv == old(db).kv(),
                j <= updated_keys@.len(),
                keys == vec_views(updated_keys@),
                self.key_changes@ == take_values(m0, kv, keys.subrange(0, j as int)),
                self.config.enabled == old(self).config.enabled,
                self.last_snapshot_height == old(self).last_snapshot_height,
            decreases updated_keys@.len() - j,
        {
            assert(keys.subrange(0, j + 1).drop_last() =~= keys.subrange(0, j as int));
            match db.get(&updated_keys[j]) {
                Ok(Some(value)) => {
                    let k = copy_bytes(&updated_keys[j]);
                    self.key_changes.insert(k, value);
                },
                Ok(None) => {},
                Err(e) => return Err(e),
            }
            j = j + 1;
        }
        assert(keys.subrange(0, j as int) =~= keys);
        Ok(())
    }
}

/// Appends an interval to the index and makes its end the latest height.
pub fn add_interval(index: &mut RepoIndex, metadata: SnapshotMetadata, created_at: u64)
    ensures
        final(index).intervals@ == old(index).intervals@.push(metadata),
        final(index).latest_height == metadata.end_height,
        final(index).created_at == created_at,
{
    let end_height = metadata.end_height;
    index.intervals.push(metadata);
    index.latest_height = end_height;
    index.created_at = created_at;
}

/// The diff of a list of key changes.
pub fn encode_diff(pairs: &Vec<(Vec<u8>, Vec<u8>)>) -> (d: Vec<u8>)
    ensures d@ == diff_of(entry_views(pairs@)),
{
    let mut d: Vec<u8> = Vec::new();
    let mut i: usize = 0;
    while i < pairs.len()
        invariant
            i <= pairs@.len(),
            d@ == diff_of(entry_views(pairs@).subrange(0, i as int)),
        decreases pairs@.len() - i,
    {
        let ghost s = entry_views(pairs@).subrange(0, i + 1);
        assert(s.drop_last() =~= entry_views(pairs@).subrange(0, i as int));
        let kl = u32_to_le_bytes(pairs[i].0.len() as u32);
        append_bytes(&mut d, kl.as_slice());
        append_bytes(&mut d, &pairs[i].0);
        let vl = u32_to_le_bytes(pairs[i].1.len() as u32);
        append_bytes(&mut d, vl.as_slice());
        append_bytes(&mut d, &pairs[i].1);
        assert(d@ =~= diff_of(s));
        i = i + 1;
    }
    assert(entry_views(pairs@).subrange(0, i as int) =~= entry_views(pairs@));
    d
}

/// The records of a diff, in order; reading stops at the first record that
/// does not fit in what is left.
pub fn parse_diff(data: &[u8]) -> (pairs: Vec<(Vec<u8>, Vec<u8>)>)
    ensures entry_views(pairs@) == parse_diff_from(data@, 0),
{
    let mut pairs: Vec<(Vec<u8>, Vec<u8>)> = Vec::new();
    let mut i: usize = 0;
    let n = data.len();
    assert(entry_views(pairs@) =~= Seq::<(Seq<u8>, Seq<u8>)>::empty());
    loop
        invariant_except_break
            i <= n,
            n == data@.len(),
            entry_views(pairs@) + parse_diff_from(data@, i as int) == parse_diff_from(data@, 0),
        ensures
            entry_views(pairs@) == parse_diff_from(data@, 0),
        decreases n - i,
    {
        if n - i < 4 {
            assert(parse_diff_from(data@, i as int) =~= Seq::<(Seq<u8>, Seq<u8>)>::empty());
            assert(entry_views(pairs@) =~= entry_views(pairs@) + Seq::<(Seq<u8>, Seq<u8>)>::empty());
            break;
        }
        let key_len = u32_from_le4(data[i], data[i + 1], data[i + 2], data[i + 3]) as usize;
        assert(data@.subrange(i as int, i + 4) =~= seq![data@[i as int], data@[i + 1], data@[i + 2], data@[i + 3]]);
        if n - i - 4 < key_len || n - i - 4 - key_len < 4 {
            assert(parse_diff_from(data@, i as int) =~= Seq::<(Seq<u8>, Seq<u8>)>::empty());
            assert(entry_views(pairs@) =~= entry_views(pairs@) + Seq::<(Seq<u8>, Seq<u8>)>::empty());
            break;
        }
        let k_end = i + 4 + key_len;
        let value_len = u32_from_le4(data[k_end], data[k_end + 1], data[k_end + 2], data[k_end + 3]) as usize;
        assert(data@.subrange(k_end as int, k_end + 4) =~= seq![data@[k_end as int], data@[k_end + 1], data@[k_end + 2], data@[k_end + 3]]);
        if n - k_end - 4 < value_len {
            assert(parse_diff_from(data@, i as int) =~= Seq::<(Seq<u8>, Seq<u8>)>::empty());
            assert(entry_views(pairs@) =~= entry_views(pairs@) + Seq::<(Seq<u8>, Seq<u8>)>::empty());
            break;
        }
        let v_end = k_end + 4 + value_len;
        let key = sub_bytes(data, i + 4, k_end);
        let value = sub_bytes(data, k_end + 4, v_end);
        let ghost before = entry_views(pairs@);
        pairs.push((key, value));
        assert(entry_views(pairs@) =~= before.push((data@.subrange(i + 4, k_end as int), data@.subrange(k_end + 4, v_end as int))));
        assert(parse_diff_from(data@, i as int) =~= seq![(data@.subrange(i + 4, k_end as int), data@.subrange(k_end + 4, v_end as int))]
            + parse_diff_from(data@, v_end as int));
        assert(entry_views(pairs@) + parse_diff_from(data@, v_end as int) =~= before + parse_diff_from(data@, i as int));
        i = v_end;
    }
    pairs
}

/// Reading a diff back gives the key changes it was made from, when every
/// key and value is shorter than 2^32 bytes.
pub proof fn lemma_parse_encode_diff(pairs: Seq<(Seq<u8>, Seq<u8>)>)
    requires forall|j: int| 0 <= j < pairs.len() ==> (#[trigger] pairs[j]).0.len() <= u32::MAX && pairs[j].1.len() <= u32::MAX,
    ensures parse_diff_from(diff_of(pairs), 0) == pairs,
{
    lemma_parse_encode_diff_at(Seq::empty(), pairs);
    assert(Seq::<u8>::empty() + diff_of(pairs) =~= diff_of(pairs));
}

proof fn lemma_parse_encode_diff_at(prefix: Seq<u8>, pairs: Seq<(Seq<u8>, Seq<u8>)>)
    requires forall|j: int| 0 <= j < pairs.len() ==> (#[trigger] pairs[j]).0.len() <= u32::MAX && pairs[j].1.len() <= u32::MAX,
    ensures parse_diff_from(prefix + diff_of(pairs), prefix.len() as int) == pairs,
    decreases pairs.len(),
{
    if pairs.len() == 0 {
        assert(prefix + diff_of(pairs) =~= prefix);
    } else {
        let (k, v) = pairs[0];
        let rest = pairs.drop_first();
        lemma_diff_of_first(pairs);
        let rec = diff_record(k, v);
        assert forall|j: int| 0 <= j < rest.len() implies (#[trigger] rest[j]).0.len() <= u32::MAX && rest[j].1.len() <= u32::MAX by {
            assert(rest[j] == pairs[j + 1]);
        };
        assert(pairs[0].0.len() <= u32::MAX && pairs[0].1.len() <= u32::MAX);
        lemma_parse_encode_diff_at(prefix + rec, rest);
        let data = prefix + diff_of(pairs);
        assert(data =~= (prefix + rec) + diff_of(rest));
        let i = prefix.len() as int;
        lemma_le32_roundtrip(k.len() as u32);
        lemma_le32_roundtrip(v.len() as u32);
        crate::codec::lemma_le32_len(k.len() as u32);
        crate::codec::lemma_le32_len(v.len() as u32);
        assert(data.subrange(i, i + 4) =~= le32(k.len() as u32));
        let k_end = i + 4 + k.len();
        assert(data.subrange(k_end, k_end + 4) =~= le32(v.len() as u32));
        assert(data.subrange(i + 4, k_end) =~= k);
        assert(data.subrange(k_end + 4, k_end + 4 + v.len()) =~= v);
        assert((prefix + rec).len() == k_end + 4 + v.len());
    }
}

proof fn lemma_diff_of_first(pairs: Seq<(Seq<u8>, Seq<u8>)>)
    requires pairs.len() > 0,
    ensures diff_of(pairs) == diff_record(pairs[0].0, pairs[0].1) + diff_of(pairs.drop_first()),
    decreases pairs.len(),
{
    if pairs.len() == 1 {
        assert(pairs.drop_first() =~= Seq::<(Seq<u8>, Seq<u8>)>::empty());
        assert(pairs.drop_last() =~= Seq::<(Seq<u8>, Seq<u8>)>::empty());
        assert(diff_of(pairs) =~= diff_record(pairs[0].0, pairs[0].1) + diff_of(pairs.drop_first()));
    } else {
        lemma_diff_of_first(pairs.drop_last());
        assert(pairs.drop_last().drop_first() =~= pairs.drop_first().drop_last());
        assert(pairs.drop_first().last() == pairs.last());
        assert(diff_of(pairs) =~= diff_record(pairs[0].0, pairs[0].1) + diff_of(pairs.drop_first()));
    }
}

/// The zstd level interval diffs are compressed at.
pub const DIFF_COMPRESSION_LEVEL: i32 = 3;

/// The error of applying a synced interval.
#[derive(Debug)]
pub enum IntervalError<E> {
    /// The downloaded diff does not decompress.
    InvalidCompression,
    /// The store refused a write.
    Store(E),
    /// The interval's state root is not hex text.
    InvalidRoot,
}

/// Applies the records of a downloaded diff to the store, in order.
pub fn apply_diff<S: KeyValueStoreLike>(db: &mut S, diff_data: &[u8]) -> (r: Result<(), S::Error>)
    ensures
        r is Ok ==> final(db).kv() == apply_pairs::<S>(old(db).kv(), parse_diff_from(diff_data@, 0)),
        S::never_fails() ==> r is Ok,
{
    let pairs = parse_diff(diff_data);
    let ghost ps = entry_views(pairs@);
    let ghost kv0 = db.kv();
    let mut i: usize = 0;
    while i < pairs.len()
        invariant
            i <= pairs@.len(),
            ps == entry_views(pairs@),
            db.kv() == apply_pairs::<S>(kv0, ps.subrange(0, i as int)),
        decreases pairs@.len() - i,
    {
        assert(ps.subrange(0, i + 1).drop_last() =~= ps.subrange(0, i as int));
        match db.put(&pairs[i].0, &pairs[i].1) {
            Ok(()) => {},
            Err(e) => return Err(e),
        }
        i = i + 1;
    }
    assert(ps.subrange(0, i as int) =~= ps);
    Ok(())
}

/// Applies a downloaded diff, compressed with zstd, to the store: the diff
/// is decompressed, then its records are put in order. A diff that does not
/// decompress is refused and the store left as it was.
pub fn apply_compressed_diff<S: KeyValueStoreLike>(db: &mut S, compressed: &[u8]) -> (r: Result<(), IntervalError<S::Error>>)
    ensures
        zstd_decompressed(compressed@) is None ==> r matches Err(IntervalError::InvalidCompression),
        r matches Err(IntervalError::InvalidCompression) ==> final(db).kv() == old(db).kv(),
        r is Ok ==> (zstd_decompressed(compressed@) matches Some(d)
            && final(db).kv() == apply_pairs::<S>(old(db).kv(), parse_diff_from(d, 0))),
        r matches Err(e) ==> (e matches IntervalError::InvalidCompression || e matches IntervalError::Store(_)),
        r matches Err(IntervalError::InvalidCompression) <==> zstd_decompressed(compressed@) is None,
        S::never_fails() ==> (r is Ok <==> zstd_decompressed(compressed@) is Some),
{
    let diff = match zstd_decode(compressed) {
        Some(d) => d,
        None => return Err(IntervalError::InvalidCompression),
    };
    match apply_diff(db, &diff) {
        Ok(()) => Ok(()),
        Err(e) => Err(IntervalError::Store(e)),
    }
}

/// The store after putting each pair in order.
pub open spec fn apply_pairs<S: KeyValueStoreLike>(kv: Map<Seq<u8>, Seq<u8>>, pairs: Seq<(Seq<u8>, Seq<u8>)>)
    -> Map<Seq<u8>, Seq<u8>>
    decreases pairs.len(),
{
    if pairs.len() == 0 {
        kv
    } else {
        S::put_effect(apply_pairs::<S>(kv, pairs.drop_last()), pairs.last().0, pairs.last().1)
    }
}

/// Stores a synced interval's state root, given as hex text, and makes its
/// end height the tip; returns the end height.
pub fn store_interval_root<S: KeyValueStoreLike>(db: &mut S, end_height: u32, root_hex: &[u8])
    -> (r: Result<u32, IntervalError<S::Error>>)
    ensures
        r matches Err(IntervalError::InvalidRoot) <==> !is_hex_text(root_hex@),
        r matches Err(IntervalError::InvalidRoot) ==> final(db).kv() == old(db).kv(),
        r is Ok ==> r == Ok::<u32, IntervalError<S::Error>>(end_height) && final(db).kv() == S::put_effect(
            S::put_effect(old(db).kv(), synced_root_key(end_height), hex_bytes(root_hex@)),
            tip_key(), le32(end_height)),
        S::never_fails() && is_hex_text(root_hex@) ==> r is Ok,
{
    let root_value = match hex_decode(root_hex) {
        Some(v) => v,
        None => return Err(IntervalError::InvalidRoot),
    };
    let mut root_key: Vec<u8> = vec![115, 109, 116, 58, 114, 111, 111, 116, 58, 58];
    let ghost head = root_key@;
    push_decimal(&mut root_key, end_height);
    assert(head =~= seq![115u8, 109u8, 116u8, 58u8, 114u8, 111u8, 111u8, 116u8, 58u8, 58u8]);
    match db.put(&root_key, &root_value) {
        Ok(()) => {},
        Err(e) => return Err(IntervalError::Store(e)),
    }
    let tip: Vec<u8> = vec![47, 95, 95, 73, 78, 84, 69, 82, 78, 65, 76, 47, 116, 105, 112, 45, 104, 101, 105, 103, 104, 116];
    assert(tip@ =~= tip_key());
    let tip_value = u32_to_le_bytes(end_height);
    match db.put(&tip, tip_value.as_slice()) {
        Ok(()) => Ok(end_height),
        Err(e) => Err(IntervalError::Store(e)),
    }
}

/// The key holding the number of keys updated at `height`.
fn updates_length_key_bytes(height: u32) -> (k: Vec<u8>)
    ensures k@ == updates_length_key(height),
{
    let mut k: Vec<u8> = Vec::new();
    push_decimal(&mut k, height);
    let ghost d = k@;
    let tail: [u8; 8] = [70, 70, 70, 70, 70, 70, 70, 70];
    append_bytes(&mut k, tail.as_slice());
    assert(tail@ =~= seq![70u8, 70u8, 70u8, 70u8, 70u8, 70u8, 70u8, 70u8]);
    assert(d =~= Seq::<u8>::empty() + decimal(height as nat));
    k
}

/// The key holding the `i`-th key updated at `height`.
fn updates_entry_key_bytes(height: u32, i: u32) -> (k: Vec<u8>)
    ensures k@ == updates_entry_key(height, i),
{
    let mut k: Vec<u8> = Vec::new();
    push_decimal(&mut k, height);
    push_decimal(&mut k, i);
    assert(k@ =~= updates_entry_key(height, i));
    k
}

/// A diagnosis of snapshots that stall: the database it looks at and the
/// snapshot directory, if any.
pub struct SnapshotHangAnalyzer {
    pub db_path: std::path::PathBuf,
    pub snapshot_dir: Option<std::path::PathBuf>,
}

impl SnapshotHangAnalyzer {
    pub fn new(db_path: std::path::PathBuf, snapshot_dir: Option<std::path::PathBuf>) -> (a: Self)
        ensures a.db_path == db_path, a.snapshot_dir == snapshot_dir,
    {
        SnapshotHangAnalyzer { db_path, snapshot_dir }
    }
}

} // verus!
