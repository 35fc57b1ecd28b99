//! Height-indexed values and per-height state roots kept in a key/value
//! store.
//!
//! A value stored for `key` at a height lives under `bst:` + `key`, and the
//! height is recorded by an empty value under
//! `bst:height:` + height in decimal + `:` + `key` in hex. The state root of
//! a height lives under `smt:root:::` + height in decimal. Lookups at a
//! height search the heights from 1 up by bisection.

use vstd::prelude::*;
use crate::byte_map::{lookup, opt_view};
use crate::bytes::{append_bytes, copy_bytes, vec_views};
use crate::codec::{decimal, le32, push_decimal, u32_to_le_bytes};
use crate::hashing::{hex_decode, hex_encode, hex_bytes, hex_text, is_hex_text, sha256, sha256_digest};
use crate::store::{BatchLike, KeyValueStoreLike};

verus! {

/// `smt:root:`
pub open spec fn smt_root_prefix() -> Seq<u8> {
    seq![115u8, 109u8, 116u8, 58u8, 114u8, 111u8, 111u8, 116u8, 58u8]
}

/// `bst:`
pub open spec fn bst_key_prefix() -> Seq<u8> {
    seq![98u8, 115u8, 116u8, 58u8]
}

/// `bst:height:`
pub open spec fn bst_height_index_prefix() -> Seq<u8> {
    seq![98u8, 115u8, 116u8, 58u8, 104u8, 101u8, 105u8, 103u8, 104u8, 116u8, 58u8]
}

/// `n` colons.
pub open spec fn colons(n: nat) -> Seq<u8> {
    Seq::new(n, |i: int| 58u8)
}

/// The key of the state root of `height`: `smt:root:` then `colons` more
/// colons, then the height in decimal.
pub open spec fn root_key(height: u32, extra_colons: nat) -> Seq<u8> {
    smt_root_prefix() + colons(extra_colons) + decimal(height as nat)
}

/// The key under which the value of `key` is stored.
pub open spec fn bst_key(key: Seq<u8>) -> Seq<u8> {
    bst_key_prefix() + key
}

/// The part of a height index key after the height: `:` and the key in hex.
pub open spec fn index_suffix(key: Seq<u8>) -> Seq<u8> {
    seq![58u8] + hex_text(key)
}

/// The key recording that `key` was stored at `height`.
pub open spec fn index_key(height: u32, key: Seq<u8>) -> Seq<u8> {
    bst_height_index_prefix() + decimal(height as nat) + index_suffix(key)
}

/// Whether `kv` holds `prefix` + `h` in decimal + `suffix`.
pub open spec fn marked(kv: Map<Seq<u8>, Seq<u8>>, prefix: Seq<u8>, suffix: Seq<u8>, h: int) -> bool {
    0 <= h <= u32::MAX && kv.contains_key(prefix + decimal(h as nat) + suffix)
}

/// The bisection over heights `low..=high` for the latest marked height
/// up to `height`, skipping height 0; `best` is the latest one seen so far.
pub open spec fn search(kv: Map<Seq<u8>, Seq<u8>>, prefix: Seq<u8>, suffix: Seq<u8>, low: int, high: int, height: int, best: Option<u32>)
    -> Option<u32>
    decreases high + 1 - low,
{
    if low > high || low < 0 {
        best
    } else {
        let mid = low + (high - low) / 2;
        if mid == 0 {
            search(kv, prefix, suffix, 1, high, height, best)
        } else if marked(kv, prefix, suffix, mid) {
            if mid == height {
                Some(mid as u32)
            } else if mid < height {
                search(kv, prefix, suffix, mid + 1, high, height, Some(mid as u32))
            } else {
                search(kv, prefix, suffix, low, mid - 1, height, Some(mid as u32))
            }
        } else {
            search(kv, prefix, suffix, low, mid - 1, height, best)
        }
    }
}

/// The latest marked height up to `height`, found by bisection.
pub open spec fn latest_marked(kv: Map<Seq<u8>, Seq<u8>>, prefix: Seq<u8>, suffix: Seq<u8>, height: u32) -> Option<u32> {
    search(kv, prefix, suffix, 0, height as int, height as int, None)
}

/// A stored value, if it is 32 bytes long.
pub open spec fn root32(v: Option<Seq<u8>>) -> Option<Seq<u8>> {
    match v {
        Some(b) => if b.len() == 32 { Some(b) } else { None },
        None => None,
    }
}

/// 32 zero bytes: the root of the empty state.
pub open spec fn empty_root() -> Seq<u8> {
    Seq::new(32, |i: int| 0u8)
}

/// The state root of `height` as the store gives it: the value stored for
/// the height itself (in either key form), else the value stored for the
/// latest height below it that bisection finds, else the empty root.
pub open spec fn root_at(kv: Map<Seq<u8>, Seq<u8>>, height: u32) -> Seq<u8> {
    if root32(lookup(kv, root_key(height, 2))) is Some {
        root32(lookup(kv, root_key(height, 2)))->0
    } else if root32(lookup(kv, root_key(height, 3))) is Some {
        root32(lookup(kv, root_key(height, 3)))->0
    } else if height == 0 {
        empty_root()
    } else {
        match latest_marked(kv, smt_root_prefix() + colons(2), Seq::empty(), height) {
            Some(m) => if root32(lookup(kv, root_key(m, 2))) is Some {
                root32(lookup(kv, root_key(m, 2)))->0
            } else {
                empty_root()
            },
            None => empty_root(),
        }
    }
}

/// The value of `key` as seen at `height`: the stored value, if bisection
/// finds a height up to `height` at which `key` was recorded.
pub open spec fn value_at(kv: Map<Seq<u8>, Seq<u8>>, key: Seq<u8>, height: u32) -> Option<Seq<u8>> {
    if latest_marked(kv, bst_height_index_prefix(), index_suffix(key), height) is Some {
        lookup(kv, bst_key(key))
    } else {
        None
    }
}

/// The first position at or after `from` holding a colon, or the length.
pub open spec fn colon_at(s: Seq<u8>, from: int) -> int
    decreases s.len() - from,
{
    if from >= s.len() || from < 0 {
        s.len() as int
    } else if s[from] == 58u8 {
        from
    } else {
        colon_at(s, from + 1)
    }
}

/// The second colon-separated field of `s`, if `s` holds a colon.
pub open spec fn second_field(s: Seq<u8>) -> Option<Seq<u8>> {
    let i = colon_at(s, 0);
    if i >= s.len() {
        None
    } else {
        Some(s.subrange(i + 1, colon_at(s, i + 1)))
    }
}

/// The key that a scanned index key names: its second colon-separated
/// field read as hex, if it is hex.
pub open spec fn named_key(s: Seq<u8>) -> Option<Seq<u8>> {
    match second_field(s) {
        Some(f) => if is_hex_text(f) { Some(hex_bytes(f)) } else { None },
        None => None,
    }
}

/// The keys named by the scanned index keys, in order.
pub open spec fn named_keys(scanned: Seq<Seq<u8>>) -> Seq<Seq<u8>>
    decreases scanned.len(),
{
    if scanned.len() == 0 {
        Seq::empty()
    } else {
        let rest = named_keys(scanned.drop_last());
        match named_key(scanned.last()) {
            Some(k) => rest.push(k),
            None => rest,
        }
    }
}

/// What is hashed, after the previous root and the height, for the updated
/// keys: each key followed by its value at `height`, if it has one.
pub open spec fn keys_preimage(kv: Map<Seq<u8>, Seq<u8>>, keys: Seq<Seq<u8>>, height: u32) -> Seq<u8>
    decreases keys.len(),
{
    if keys.len() == 0 {
        Seq::empty()
    } else {
        keys_preimage(kv, keys.drop_last(), height) + keys.last() + match value_at(kv, keys.last(), height) {
            Some(v) => v,
            None => Seq::empty(),
        }
    }
}

/// The preimage of a list of keys grows, key by key, by the key and then
/// the key's value at the height, when it has one.
pub proof fn lemma_preimage_appends_key_and_value(kv: Map<Seq<u8>, Seq<u8>>, keys: Seq<Seq<u8>>, k: Seq<u8>, height: u32)
    ensures
        value_at(kv, k, height) matches Some(v) ==> keys_preimage(kv, keys.push(k), height) == keys_preimage(kv, keys, height) + k + v,
        value_at(kv, k, height) is None ==> keys_preimage(kv, keys.push(k), height) == keys_preimage(kv, keys, height) + k,
{
    assert(keys.push(k).drop_last() =~= keys);
    assert(keys_preimage(kv, keys, height) + k + Seq::<u8>::empty() =~= keys_preimage(kv, keys, height) + k);
}

/// The state root depends on the values of the updated keys: two stores
/// that give the same preimage for the earlier keys, and different values
/// for the next key at the height, give different preimages once that key
/// is added.
pub proof fn lemma_preimage_tells_values_apart(
    kv1: Map<Seq<u8>, Seq<u8>>, kv2: Map<Seq<u8>, Seq<u8>>, keys: Seq<Seq<u8>>, k: Seq<u8>, height: u32,
)
    requires
        keys_preimage(kv1, keys, height) == keys_preimage(kv2, keys, height),
        value_at(kv1, k, height) is Some,
        value_at(kv2, k, height) is Some,
        value_at(kv1, k, height) != value_at(kv2, k, height),
    ensures
        keys_preimage(kv1, keys.push(k), height) != keys_preimage(kv2, keys.push(k), height),
{
    lemma_preimage_appends_key_and_value(kv1, keys, k, height);
    lemma_preimage_appends_key_and_value(kv2, keys, k, height);
    let p = keys_preimage(kv1, keys, height) + k;
    let v1 = value_at(kv1, k, height)->0;
    let v2 = value_at(kv2, k, height)->0;
    if p + v1 == p + v2 {
        assert(v1 =~= (p + v1).subrange(p.len() as int, (p + v1).len() as int));
        assert(v2 =~= (p + v2).subrange(p.len() as int, (p + v2).len() as int));
    }
}

/// The new state root of `height`.
pub open spec fn next_root(kv: Map<Seq<u8>, Seq<u8>>, height: u32, scanned: Seq<Seq<u8>>) -> Seq<u8> {
    let prev = if height > 0 { (height - 1) as u32 } else { 0u32 };
    sha256(root_at(kv, prev) + le32(height) + keys_preimage(kv, named_keys(scanned), height))
}

/// A height found by the bisection is marked, lies in `1..=height`, and is
/// the latest marked one when the marked heights from 1 on are exactly
/// `1..=top`.
pub proof fn lemma_search_finds_latest(
    kv: Map<Seq<u8>, Seq<u8>>, prefix: Seq<u8>, suffix: Seq<u8>, height: u32, top: int,
)
    requires
        forall|h: int| 1 <= h <= height ==> (marked(kv, prefix, suffix, h) <==> h <= top),
    ensures
        latest_marked(kv, prefix, suffix, height) == (if top >= 1 && height >= 1 {
            Some((if top < height { top } else { height as int }) as u32)
        } else {
            None::<u32>
        }),
{
    let t: int = if top < 1 { 0 } else if top < height { top } else { height as int };
    lemma_search_step(kv, prefix, suffix, 0, height as int, height as int, None, t, top);
}

proof fn lemma_search_step(
    kv: Map<Seq<u8>, Seq<u8>>, prefix: Seq<u8>, suffix: Seq<u8>, low: int, high: int, height: int,
    best: Option<u32>, t: int, top: int,
)
    requires
        0 <= low,
        high <= height <= u32::MAX,
        t == (if top < 1 { 0 } else if top < height { top } else { height }),
        forall|h: int| 1 <= h <= height ==> (marked(kv, prefix, suffix, h) <==> h <= top),
        best is None ==> (t == 0 || (low <= t <= high)),
        best matches Some(b) ==> (b == t || (low <= t <= high)) && 1 <= b <= t && b < low,
    ensures
        search(kv, prefix, suffix, low, high, height, best) == (if t >= 1 { Some(t as u32) } else { None::<u32> }),
    decreases high + 1 - low,
{
    if low > high {
    } else {
        let mid = low + (high - low) / 2;
        if mid == 0 {
            lemma_search_step(kv, prefix, suffix, 1, high, height, best, t, top);
        } else if marked(kv, prefix, suffix, mid) {
            if mid == height {
            } else if mid < height {
                lemma_search_step(kv, prefix, suffix, mid + 1, high, height, Some(mid as u32), t, top);
            } else {
                lemma_search_step(kv, prefix, suffix, low, mid - 1, height, Some(mid as u32), t, top);
            }
        } else {
            lemma_search_step(kv, prefix, suffix, low, mid - 1, height, best, t, top);
        }
    }
}

/// A key and value with the height they were stored at.
#[derive(Debug, Clone)]
pub struct HeightIndexedValue {
    pub key: Vec<u8>,
    pub value: Vec<u8>,
    pub height: u32,
}

/// Height-indexed values and state roots over a store.
pub struct SMTHelper<S: KeyValueStoreLike> {
    db: S,
}

impl<S: KeyValueStoreLike> SMTHelper<S> {
    /// The store's contents.
    pub closed spec fn kv(&self) -> Map<Seq<u8>, Seq<u8>> {
        self.db.kv()
    }

    pub fn new(db: S) -> (h: Self)
        ensures h.kv() == db.kv(),
    {
        SMTHelper { db }
    }

    /// The store, handed back.
    pub fn into_inner(self) -> (db: S)
        ensures db.kv() == self.kv(),
    {
        self.db
    }

    /// The state root of `height`; reading never fails here, a failed read
    /// counts as an absent value.
    pub fn get_smt_root_at_height(&mut self, height: u32) -> (r: Result<[u8; 32], S::Error>)
        ensures
            final(self).kv() == old(self).kv(),
            r is Ok,
            S::never_fails() ==> (r matches Ok(root) && root@ == root_at(old(self).kv(), height)),
    {
        Ok(smt_root_at_height(&mut self.db, height))
    }

    /// Stores `value` for `key` at `height`: the value under the key's
    /// storage key and an empty marker under its height index key, in one
    /// batch.
    pub fn bst_put(&mut self, key: &[u8], value: &[u8], height: u32) -> (r: Result<(), S::Error>)
        ensures
            r is Ok ==> final(self).kv() == S::write_effect(old(self).kv(),
                seq![(bst_key(key@), value@), (index_key(height, key@), Seq::<u8>::empty())]),
            r is Err ==> final(self).kv() == old(self).kv(),
            S::never_fails() ==> r is Ok,
    {
        let storage_key = bst_key_bytes(key);
        let height_index_key = index_key_bytes(height, key);
        let mut batch = S::Batch::default();
        batch.put(&storage_key, value);
        let empty: Vec<u8> = Vec::new();
        batch.put(&height_index_key, &empty);
        assert(batch.puts() =~= seq![(bst_key(key@), value@), (index_key(height, key@), Seq::<u8>::empty())]);
        match self.db.write(batch) {
            Ok(()) => {},
            Err(e) => return Err(e),
        }
        let _ = self.db.get(&storage_key);
        Ok(())
    }

    /// The value of `key` as seen at `height`.
    pub fn bst_get_at_height(&mut self, key: &[u8], height: u32) -> (r: Result<Option<Vec<u8>>, S::Error>)
        ensures
            final(self).kv() == old(self).kv(),
            r matches Ok(Some(v)) ==> lookup(old(self).kv(), bst_key(key@)) == Some(v@),
            S::never_fails() ==> (r matches Ok(v) && opt_view(v) == value_at(old(self).kv(), key@, height)),
    {
        let storage_key = bst_key_bytes(key);
        let prefix = index_prefix_bytes();
        let suffix = index_suffix_bytes(key);
        match search_latest(&mut self.db, &prefix, &suffix, height) {
            Some(_) => {
                match self.db.get(&storage_key) {
                    Ok(Some(value)) => Ok(Some(value)),
                    Ok(None) => Ok(None),
                    Err(e) => Err(e),
                }
            },
            None => Ok(None),
        }
    }

    /// The keys named by the index keys that a scan from the height's index
    /// prefix yields, in scan order: each is the second colon-separated
    /// field of a scanned key, read as hex; fields that are not hex are
    /// skipped.
    pub fn list_keys_at_height(&self, scanned: &[Vec<u8>]) -> (keys: Vec<Vec<u8>>)
        ensures vec_views(keys@) == named_keys(vec_views(scanned@)),
    {
        let mut keys: Vec<Vec<u8>> = Vec::new();
        let mut i: usize = 0;
        while i < scanned.len()
            invariant
                i <= scanned@.len(),
                vec_views(keys@) == named_keys(vec_views(scanned@).subrange(0, i as int)),
            decreases scanned@.len() - i,
        {
            let ghost pre = vec_views(scanned@).subrange(0, i as int);
            assert(vec_views(scanned@).subrange(0, i + 1).drop_last() =~= pre);
            let ghost before = vec_views(keys@);
            match key_named_by(&scanned[i]) {
                Some(k) => {
                    keys.push(k);
                    assert(vec_views(keys@) =~= before.push(named_key(scanned@[i as int]@)->0));
                },
                None => {},
            }
            i = i + 1;
        }
        assert(vec_views(scanned@).subrange(0, i as int) =~= vec_views(scanned@));
        keys
    }

    /// Computes the state root of `height` from the previous height's root,
    /// the height, and each updated key with its value at `height`, stores
    /// it under the height's root key, and returns it.
    pub fn calculate_and_store_state_root(&mut self, height: u32, scanned: &[Vec<u8>]) -> (r: Result<[u8; 32], S::Error>)
        ensures
            r matches Ok(root) ==> final(self).kv() == S::put_effect(old(self).kv(), root_key(height, 2), root@),
            r is Err ==> final(self).kv() == old(self).kv(),
            S::never_fails() ==> (r matches Ok(root) && root@ == next_root(old(self).kv(), height, vec_views(scanned@))),
    {
        let ghost kv0 = self.kv();
        let prev_height = if height > 0 { height - 1 } else { 0 };
        let prev_root = match self.get_smt_root_at_height(prev_height) {
            Ok(r) => r,
            Err(e) => return Err(e),
        };
        let updated_keys = self.list_keys_at_height(scanned);
        let mut data: Vec<u8> = Vec::new();
        append_bytes(&mut data, prev_root.as_slice());
        let h4 = u32_to_le_bytes(height);
        append_bytes(&mut data, h4.as_slice());
        let ghost head = data@;
        let ghost ks = vec_views(updated_keys@);
        let mut i: usize = 0;
        while i < updated_keys.len()
            invariant
                i <= updated_keys@.len(),
                ks == vec_views(updated_keys@),
                self.kv() == kv0,
                S::never_fails() ==> data@ == head + keys_preimage(kv0, ks.subrange(0, i as int), height),
            decreases updated_keys@.len() - i,
        {
            let ghost pre = ks.subrange(0, i as int);
            assert(ks.subrange(0, i + 1).drop_last() =~= pre);
            let ghost before = data@;
            append_bytes(&mut data, &updated_keys[i]);
            match self.bst_get_at_height(&updated_keys[i], height) {
                Ok(Some(value)) => {
                    append_bytes(&mut data, &value);
                },
                _ => {},
            }
            proof {
                if S::never_fails() {
                    assert(data@ =~= head + keys_preimage(kv0, ks.subrange(0, i + 1), height));
                }
            }
            i = i + 1;
        }
        assert(ks.subrange(0, i as int) =~= ks);
        let new_root = sha256_digest(&data);
        let root_key = root_key_bytes(height, 2);
        match self.db.put(&root_key, new_root.as_slice()) {
            Ok(()) => Ok(new_root),
            Err(e) => Err(e),
        }
    }
}

/// A root the lookup for `height` can give when reads may fail: the empty
/// root, a 32-byte value stored for `height` in either key form, or one
/// stored for a height up to `height` that has a root recorded.
pub open spec fn possible_root(kv: Map<Seq<u8>, Seq<u8>>, height: u32, v: Seq<u8>) -> bool {
    ||| v == empty_root()
    ||| root32(lookup(kv, root_key(height, 2))) == Some(v)
    ||| root32(lookup(kv, root_key(height, 3))) == Some(v)
    ||| exists|m: u32| 1 <= m <= height && #[trigger] marked(kv, smt_root_prefix() + colons(2), Seq::empty(), m as int)
            && root32(lookup(kv, root_key(m, 2))) == Some(v)
}

/// The state root of `height` as `db` gives it; a failed read counts as an
/// absent value.
pub fn smt_root_at_height<S: KeyValueStoreLike>(db: &mut S, height: u32) -> (root: [u8; 32])
    ensures
        final(db).kv() == old(db).kv(),
        S::never_fails() ==> root@ == root_at(old(db).kv(), height),
        possible_root(old(db).kv(), height, root@),
{
    let double_key = root_key_bytes(height, 2);
    if let Some(root) = read_root32(db, &double_key) {
        return root;
    }
    let triple_key = root_key_bytes(height, 3);
    if let Some(root) = read_root32(db, &triple_key) {
        return root;
    }
    if height == 0 {
        return empty_root_bytes();
    }
    let prefix = root_search_prefix();
    let suffix: Vec<u8> = Vec::new();
    match search_latest(db, &prefix, &suffix, height) {
        Some(best_match) => {
            let root_key = root_key_bytes(best_match, 2);
            match read_root32(db, &root_key) {
                Some(root) => root,
                None => empty_root_bytes(),
            }
        },
        None => empty_root_bytes(),
    }
}

/// The value under `key` if it is 32 bytes long; a failed read counts as an
/// absent value.
fn read_root32<S: KeyValueStoreLike>(db: &mut S, key: &[u8]) -> (r: Option<[u8; 32]>)
    ensures
        final(db).kv() == old(db).kv(),
        r matches Some(root) ==> root32(lookup(old(db).kv(), key@)) == Some(root@),
        S::never_fails() ==> (r is Some <==> root32(lookup(old(db).kv(), key@)) is Some),
{
    match db.get(key) {
        Ok(Some(data)) => {
            if data.len() == 32 {
                Some(bytes32(&data))
            } else {
                None
            }
        },
        _ => None,
    }
}

/// The bisection over the heights of `1..=height`, reading each candidate
/// key `prefix` + height + `suffix`; a failed read counts as absent.
fn search_latest<S: KeyValueStoreLike>(db: &mut S, prefix: &[u8], suffix: &[u8], height: u32) -> (r: Option<u32>)
    ensures
        final(db).kv() == old(db).kv(),
        r matches Some(m) ==> 1 <= m <= height && marked(old(db).kv(), prefix@, suffix@, m as int),
        S::never_fails() ==> r == latest_marked(old(db).kv(), prefix@, suffix@, height),
{
    let ghost kv = db.kv();
    let mut low: u32 = 0;
    let mut high: u32 = height;
    let mut best: Option<u32> = None;
    while low <= high
        invariant_except_break
            db.kv() == kv,
            high <= height,
            best matches Some(m) ==> 1 <= m <= height && marked(kv, prefix@, suffix@, m as int),
            S::never_fails() ==> search(kv, prefix@, suffix@, low as int, high as int, height as int, best)
                == latest_marked(kv, prefix@, suffix@, height),
        ensures
            db.kv() == kv,
            best matches Some(m) ==> 1 <= m <= height && marked(kv, prefix@, suffix@, m as int),
            S::never_fails() ==> best == latest_marked(kv, prefix@, suffix@, height),
        decreases high as int + 1 - low as int,
    {
        let mid = low + (high - low) / 2;
        if mid == 0 {
            low = 1;
            continue;
        }
        let mut candidate: Vec<u8> = copy_bytes(prefix);
        push_decimal(&mut candidate, mid);
        append_bytes(&mut candidate, suffix);
        let present = match db.get(&candidate) {
            Ok(Some(_)) => true,
            _ => false,
        };
        proof {
            assert(candidate@ == prefix@ + decimal(mid as nat) + suffix@);
        }
        if present {
            best = Some(mid);
            if mid == height {
                break;
            } else if mid < height {
                low = mid + 1;
            } else {
                high = mid - 1;
            }
        } else {
            high = mid - 1;
        }
        if low > high {
            break;
        }
    }
    best
}

/// The 32 bytes of `data`.
fn bytes32(data: &Vec<u8>) -> (r: [u8; 32])
    requires data@.len() == 32,
    ensures r@ == data@,
{
    let mut r = [0u8; 32];
    let mut i: usize = 0;
    while i < 32
        invariant
            i <= 32,
            data@.len() == 32,
            r@.len() == 32,
            forall|j: int| 0 <= j < i ==> r@[j] == data@[j],
        decreases 32 - i,
    {
        r[i] = data[i];
        i = i + 1;
    }
    assert(r@ =~= data@);
    r
}

/// 32 zero bytes.
fn empty_root_bytes() -> (r: [u8; 32])
    ensures r@ == empty_root(),
{
    let r = [0u8; 32];
    assert(r@ =~= empty_root());
    r
}

/// `smt:root:` followed by two more colons.
fn root_search_prefix() -> (r: Vec<u8>)
    ensures r@ == smt_root_prefix() + colons(2),
{
    let r: Vec<u8> = vec![115, 109, 116, 58, 114, 111, 111, 116, 58, 58, 58];
    assert(r@ =~= smt_root_prefix() + colons(2));
    r
}

/// The key of the state root of `height` with `extra` more colons.
pub(crate) fn root_key_bytes(height: u32, extra: usize) -> (r: Vec<u8>)
    requires extra <= 3,
    ensures r@ == root_key(height, extra as nat),
{
    let mut r: Vec<u8> = vec![115, 109, 116, 58, 114, 111, 111, 116, 58];
    assert(r@ =~= smt_root_prefix());
    let mut i: usize = 0;
    while i < extra
        invariant
            i <= extra,
            r@ == smt_root_prefix() + colons(i as nat),
        decreases extra - i,
    {
        r.push(58);
        i = i + 1;
        assert(r@ =~= smt_root_prefix() + colons(i as nat));
    }
    push_decimal(&mut r, height);
    r
}

/// `bst:` followed by `key`.
fn bst_key_bytes(key: &[u8]) -> (r: Vec<u8>)
    ensures r@ == bst_key(key@),
{
    let mut r: Vec<u8> = vec![98, 115, 116, 58];
    assert(r@ =~= bst_key_prefix());
    append_bytes(&mut r, key);
    r
}

/// `bst:height:`
fn index_prefix_bytes() -> (r: Vec<u8>)
    ensures r@ == bst_height_index_prefix(),
{
    let r: Vec<u8> = vec![98, 115, 116, 58, 104, 101, 105, 103, 104, 116, 58];
    assert(r@ =~= bst_height_index_prefix());
    r
}

/// `:` followed by `key` in hex.
fn index_suffix_bytes(key: &[u8]) -> (r: Vec<u8>)
    ensures r@ == index_suffix(key@),
{
    let mut r: Vec<u8> = vec![58];
    let hex = hex_encode(key);
    append_bytes(&mut r, &hex);
    assert(r@ =~= index_suffix(key@));
    r
}

/// The height index key of `key` at `height`.
fn index_key_bytes(height: u32, key: &[u8]) -> (r: Vec<u8>)
    ensures r@ == index_key(height, key@),
{
    let mut r = index_prefix_bytes();
    push_decimal(&mut r, height);
    let suffix = index_suffix_bytes(key);
    append_bytes(&mut r, &suffix);
    r
}

/// The first position at or after `from` holding a colon, or the length.
fn find_colon(s: &[u8], from: usize) -> (r: usize)
    requires from <= s@.len(),
    ensures r == colon_at(s@, from as int), from <= r <= s@.len(),
    decreases s@.len() - from,
{
    if from >= s.len() {
        s.len()
    } else if s[from] == 58 {
        from
    } else {
        find_colon(s, from + 1)
    }
}

/// The key that a scanned index key names, if its second field is hex.
fn key_named_by(s: &Vec<u8>) -> (r: Option<Vec<u8>>)
    ensures opt_view(r) == named_key(s@),
{
    let i = find_colon(s.as_slice(), 0);
    if i >= s.len() {
        return None;
    }
    let j = find_colon(s.as_slice(), i + 1);
    let field = crate::bytes::sub_bytes(s.as_slice(), i + 1, j);
    hex_decode(&field)
}

} // verus!
