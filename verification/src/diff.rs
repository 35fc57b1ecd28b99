//! Comparing what two indexers write: the keys each one touched under a
//! prefix, the values they left, and the decisions of a comparison run over
//! the results of its blocks.

use vstd::prelude::*;
use crate::byte_map::{entries_map, entry_views, keys_distinct, lemma_entries_map_dom, lemma_entries_map_value, ByteMap, ByteSet};
use crate::bytes::{bytes_eq, copy_bytes, starts_with};
use crate::store::{BatchLike, KeyValueStoreLike};

verus! {

/// The byte strings a list of vectors holds.
pub open spec fn views_set(s: Seq<Vec<u8>>) -> Set<Seq<u8>> {
    Set::new(|x: Seq<u8>| exists|j: int| 0 <= j < s.len() && #[trigger] s[j]@ == x)
}

/// The byte strings of a list of vectors that begin with `prefix`.
pub open spec fn keys_with_prefix(s: Seq<Vec<u8>>, prefix: Seq<u8>) -> Set<Seq<u8>> {
    Set::new(|x: Seq<u8>| has_prefix(x, prefix) && exists|j: int| 0 <= j < s.len() && #[trigger] s[j]@ == x)
}

/// No two vectors of the list hold the same bytes.
pub open spec fn views_distinct(s: Seq<Vec<u8>>) -> bool {
    forall|i: int, j: int| 0 <= i < j < s.len() ==> s[i]@ != s[j]@
}

/// The keys of the first `i` entries.
pub open spec fn prefix_keys(es: Seq<(Seq<u8>, Seq<u8>)>, i: int) -> Set<Seq<u8>> {
    Set::new(|x: Seq<u8>| exists|j: int| 0 <= j < i && #[trigger] es[j].0 == x)
}

/// The (key, first value, second value) triples of the keys both maps hold
/// with different values.
pub open spec fn value_diffs_spec(p: Map<Seq<u8>, Seq<u8>>, c: Map<Seq<u8>, Seq<u8>>) -> Set<(Seq<u8>, Seq<u8>, Seq<u8>)> {
    Set::new(|t: (Seq<u8>, Seq<u8>, Seq<u8>)|
        p.contains_key(t.0) && c.contains_key(t.0) && p[t.0] != c[t.0] && t.1 == p[t.0] && t.2 == c[t.0])
}

/// The views of a list of triples.
pub open spec fn triple_views(s: Seq<(Vec<u8>, Vec<u8>, Vec<u8>)>) -> Seq<(Seq<u8>, Seq<u8>, Seq<u8>)> {
    s.map_values(|t: (Vec<u8>, Vec<u8>, Vec<u8>)| (t.0@, t.1@, t.2@))
}

/// Tracks the keys written under a prefix.
pub struct KeyTracker {
    pub prefix: Vec<u8>,
    pub keys: ByteSet,
}

impl KeyTracker {
    pub fn new(prefix: Vec<u8>) -> (t: Self)
        ensures t.prefix@ == prefix@, t.keys@ == Set::<Seq<u8>>::empty(),
    {
        KeyTracker { prefix, keys: ByteSet::new() }
    }

    /// Records `key` if it begins with the prefix.
    pub fn track_key(&mut self, key: &[u8])
        ensures
            final(self).prefix@ == old(self).prefix@,
            final(self).keys@ == (if key@.len() >= old(self).prefix@.len()
                && key@.subrange(0, old(self).prefix@.len() as int) == old(self).prefix@ {
                old(self).keys@.insert(key@)
            } else {
                old(self).keys@
            }),
    {
        if starts_with(key, &self.prefix) {
            self.keys.insert(copy_bytes(key));
        }
    }

    /// The keys recorded.
    pub fn get_keys(&self) -> (k: &ByteSet)
        ensures k@ == self.keys@,
    {
        &self.keys
    }

    /// Forgets the keys recorded.
    pub fn clear(&mut self)
        ensures final(self).keys@ == Set::<Seq<u8>>::empty(), final(self).prefix@ == old(self).prefix@,
    {
        self.keys.clear();
    }
}

/// The elements of `a` that `b` lacks, each once.
fn set_difference(a: &ByteSet, b: &ByteSet) -> (out: Vec<Vec<u8>>)
    ensures views_set(out@) == a@.difference(b@), views_distinct(out@),
{
    let items = a.to_vec();
    let mut out: Vec<Vec<u8>> = Vec::new();
    let mut i: usize = 0;
    while i < items.len()
        invariant
            i <= items@.len(),
            forall|x: Seq<u8>| a@.contains(x) <==> exists|j: int| 0 <= j < items@.len() && items@[j]@ == x,
            forall|p: int, q: int| 0 <= p < q < items@.len() ==> items@[p]@ != items@[q]@,
            views_set(out@) == Set::new(|x: Seq<u8>| (exists|j: int| 0 <= j < i && items@[j]@ == x) && !b@.contains(x)),
            forall|k: int| 0 <= k < out@.len() ==> exists|j: int| 0 <= j < i && items@[j]@ == (#[trigger] out@[k])@,
            views_distinct(out@),
        decreases items@.len() - i,
    {
        let ghost pre = out@;
        if !b.contains(&items[i]) {
            out.push(copy_bytes(&items[i]));
            proof {
                assert forall|k: int| 0 <= k < pre.len() implies out@[k]@ != items@[i as int]@ by {
                    let j = choose|j: int| 0 <= j < i && items@[j]@ == (#[trigger] pre[k])@;
                    assert(items@[j]@ != items@[i as int]@);
                };
                assert(out@.last()@ == items@[i as int]@);
            }
        }
        i = i + 1;
        assert(views_set(out@) =~= Set::new(|x: Seq<u8>| (exists|j: int| 0 <= j < i && items@[j]@ == x) && !b@.contains(x))) by {
            assert forall|x: Seq<u8>| views_set(out@).contains(x) implies
                (exists|j: int| 0 <= j < i && items@[j]@ == x) && !b@.contains(x) by {
                let k = choose|k: int| 0 <= k < out@.len() && #[trigger] out@[k]@ == x;
                if k < pre.len() {
                    assert(views_set(pre).contains(x));
                } else {
                    assert(items@[i - 1]@ == x);
                }
            };
            assert forall|x: Seq<u8>| (exists|j: int| 0 <= j < i && items@[j]@ == x) && !b@.contains(x) implies
                views_set(out@).contains(x) by {
                let j = choose|j: int| 0 <= j < i && items@[j]@ == x;
                if j < i - 1 {
                    assert(views_set(pre).contains(x));
                    let k = choose|k: int| 0 <= k < pre.len() && #[trigger] pre[k]@ == x;
                    assert(out@[k]@ == x);
                } else {
                    assert(out@[out@.len() - 1]@ == x);
                }
            };
        };
    }
    assert(views_set(out@) =~= a@.difference(b@));
    out
}

/// The keys only the first set holds, and those only the second holds.
pub fn compare_keys(primary: &ByteSet, compare: &ByteSet) -> (r: (Vec<Vec<u8>>, Vec<Vec<u8>>))
    ensures
        views_set(r.0@) == primary@.difference(compare@),
        views_set(r.1@) == compare@.difference(primary@),
        views_distinct(r.0@),
        views_distinct(r.1@),
{
    let primary_only = set_difference(primary, compare);
    let compare_only = set_difference(compare, primary);
    (primary_only, compare_only)
}

/// The keys of `a` that `b` lacks, each once.
fn keys_missing(a: &ByteMap, b: &ByteMap) -> (out: Vec<Vec<u8>>)
    ensures views_set(out@) == a@.dom().difference(b@.dom()), views_distinct(out@),
{
    let pairs = a.pairs();
    let ghost es = entry_views(pairs@);
    let mut out: Vec<Vec<u8>> = Vec::new();
    let mut i: usize = 0;
    while i < pairs.len()
        invariant
            i <= pairs@.len(),
            es == entry_views(pairs@),
            keys_distinct(es),
            entries_map(es) == a@,
            views_set(out@) == prefix_keys(es, i as int).difference(b@.dom()),
            views_distinct(out@),
        decreases pairs@.len() - i,
    {
        let ghost pre = out@;
        if !b.contains_key(&pairs[i].0) {
            out.push(copy_bytes(&pairs[i].0));
            proof {
                assert forall|k: int| 0 <= k < pre.len() implies out@[k]@ != es[i as int].0 by {
                    assert(views_set(pre).contains(pre[k]@));
                    let j = choose|j: int| 0 <= j < i && #[trigger] es[j].0 == pre[k]@;
                    assert(es[j].0 != es[i as int].0);
                };
                assert(out@.last()@ == es[i as int].0);
            }
        }
        i = i + 1;
        assert(views_set(out@) =~= prefix_keys(es, i as int).difference(b@.dom())) by {
            assert forall|x: Seq<u8>| views_set(out@).contains(x) implies
                prefix_keys(es, i as int).difference(b@.dom()).contains(x) by {
                let k = choose|k: int| 0 <= k < out@.len() && #[trigger] out@[k]@ == x;
                if k < pre.len() {
                    assert(views_set(pre).contains(x));
                    let j = choose|j: int| 0 <= j < i - 1 && #[trigger] es[j].0 == x;
                    assert(prefix_keys(es, i as int).contains(x));
                } else {
                    assert(es[i - 1].0 == x);
                    assert(prefix_keys(es, i as int).contains(x));
                }
            };
            assert forall|x: Seq<u8>| prefix_keys(es, i as int).difference(b@.dom()).contains(x) implies
                views_set(out@).contains(x) by {
                let j = choose|j: int| 0 <= j < i && #[trigger] es[j].0 == x;
                if j < i - 1 {
                    assert(prefix_keys(es, i - 1).contains(x));
                    assert(views_set(pre).contains(x));
                    let k = choose|k: int| 0 <= k < pre.len() && #[trigger] pre[k]@ == x;
                    assert(out@[k]@ == x);
                } else {
                    assert(out@[out@.len() - 1]@ == x);
                }
            };
        };
    }
    proof {
        assert forall|x: Seq<u8>| prefix_keys(es, i as int).contains(x) <==> a@.dom().contains(x) by {
            lemma_entries_map_dom(es, x);
            if a@.dom().contains(x) {
                let j = choose|j: int| 0 <= j < es.len() && es[j].0 == x;
                assert(prefix_keys(es, i as int).contains(x));
            }
        };
        assert(views_set(out@) =~= a@.dom().difference(b@.dom()));
    }
    out
}

/// Compares the updates two indexers made: the keys only the first wrote,
/// those only the second wrote, and the keys both wrote with different
/// values, with both values.
pub fn compare_updates(primary: &ByteMap, compare: &ByteMap)
    -> (r: (Vec<Vec<u8>>, Vec<Vec<u8>>, Vec<(Vec<u8>, Vec<u8>, Vec<u8>)>))
    ensures
        views_set(r.0@) == primary@.dom().difference(compare@.dom()),
        views_set(r.1@) == compare@.dom().difference(primary@.dom()),
        views_distinct(r.0@),
        views_distinct(r.1@),
        triple_views(r.2@).to_set() == value_diffs_spec(primary@, compare@),
        forall|i: int, j: int| 0 <= i < j < r.2@.len() ==> r.2@[i].0@ != r.2@[j].0@,
{
    let primary_only = keys_missing(primary, compare);
    let compare_only = keys_missing(compare, primary);
    let value_diffs = differing_values(primary, compare);
    (primary_only, compare_only, value_diffs)
}

/// Compares two batches read from two stores; as [`compare_updates`].
pub fn compare_batches(primary_batch: &ByteMap, compare_batch: &ByteMap)
    -> (r: (Vec<Vec<u8>>, Vec<Vec<u8>>, Vec<(Vec<u8>, Vec<u8>, Vec<u8>)>))
    ensures
        views_set(r.0@) == primary_batch@.dom().difference(compare_batch@.dom()),
        views_set(r.1@) == compare_batch@.dom().difference(primary_batch@.dom()),
        triple_views(r.2@).to_set() == value_diffs_spec(primary_batch@, compare_batch@),
{
    compare_updates(primary_batch, compare_batch)
}

/// The keys both maps hold with different values, with both values.
fn differing_values(p: &ByteMap, c: &ByteMap) -> (out: Vec<(Vec<u8>, Vec<u8>, Vec<u8>)>)
    ensures
        triple_views(out@).to_set() == value_diffs_spec(p@, c@),
        forall|i: int, j: int| 0 <= i < j < out@.len() ==> out@[i].0@ != out@[j].0@,
{
    let pairs = p.pairs();
    let ghost es = entry_views(pairs@);
    let ghost target = value_diffs_spec(p@, c@);
    let mut out: Vec<(Vec<u8>, Vec<u8>, Vec<u8>)> = Vec::new();
    let mut i: usize = 0;
    while i < pairs.len()
        invariant
            i <= pairs@.len(),
            es == entry_views(pairs@),
            keys_distinct(es),
            entries_map(es) == p@,
            target == value_diffs_spec(p@, c@),
            triple_views(out@).to_set() == target.filter(|t: (Seq<u8>, Seq<u8>, Seq<u8>)| prefix_keys(es, i as int).contains(t.0)),
            forall|k: int| 0 <= k < out@.len() ==> exists|j: int| 0 <= j < i && es[j].0 == (#[trigger] out@[k]).0@,
            forall|a: int, b: int| 0 <= a < b < out@.len() ==> out@[a].0@ != out@[b].0@,
        decreases pairs@.len() - i,
    {
        let ghost pre = out@;
        proof { lemma_entries_map_value(es, i as int); }
        match c.get(&pairs[i].0) {
            Some(cv) => {
                if !bytes_eq(&pairs[i].1, cv) {
                    out.push((copy_bytes(&pairs[i].0), copy_bytes(&pairs[i].1), copy_bytes(cv)));
                    proof {
                        assert forall|k: int| 0 <= k < pre.len() implies out@[k].0@ != es[i as int].0 by {
                            let j = choose|j: int| 0 <= j < i && es[j].0 == (#[trigger] pre[k]).0@;
                            assert(es[j].0 != es[i as int].0);
                        };
                    }
                }
            },
            None => {},
        }
        i = i + 1;
        proof {
            let now = target.filter(|t: (Seq<u8>, Seq<u8>, Seq<u8>)| prefix_keys(es, i as int).contains(t.0));
            let before = target.filter(|t: (Seq<u8>, Seq<u8>, Seq<u8>)| prefix_keys(es, i - 1).contains(t.0));
            assert forall|t: (Seq<u8>, Seq<u8>, Seq<u8>)| triple_views(out@).to_set().contains(t) <==> now.contains(t) by {
                if triple_views(out@).to_set().contains(t) {
                    let k = choose|k: int| 0 <= k < triple_views(out@).len() && triple_views(out@)[k] == t;
                    if k < pre.len() {
                        assert(triple_views(pre)[k] == t);
                        assert(triple_views(pre).to_set().contains(t));
                        let j = choose|j: int| 0 <= j < i - 1 && #[trigger] es[j].0 == t.0;
                        assert(prefix_keys(es, i as int).contains(t.0));
                    } else {
                        assert(es[i - 1].0 == t.0);
                        assert(prefix_keys(es, i as int).contains(t.0));
                    }
                }
                if now.contains(t) {
                    let j = choose|j: int| 0 <= j < i && #[trigger] es[j].0 == t.0;
                    if j < i - 1 {
                        assert(prefix_keys(es, i - 1).contains(t.0));
                        assert(before.contains(t));
                        let k = choose|k: int| 0 <= k < triple_views(pre).len() && triple_views(pre)[k] == t;
                        assert(triple_views(out@)[k] == t);
                    } else {
                        lemma_entries_map_value(es, j);
                        assert(triple_views(out@)[out@.len() - 1] == t);
                    }
                }
            };
            assert(triple_views(out@).to_set() =~= now);
        }
    }
    proof {
        assert forall|x: Seq<u8>| prefix_keys(es, i as int).contains(x) <==> p@.dom().contains(x) by {
            lemma_entries_map_dom(es, x);
            if p@.dom().contains(x) {
                let j = choose|j: int| 0 <= j < es.len() && es[j].0 == x;
                assert(prefix_keys(es, i as int).contains(x));
            }
        };
        assert(target.filter(|t: (Seq<u8>, Seq<u8>, Seq<u8>)| prefix_keys(es, i as int).contains(t.0)) =~= target);
    }
    out
}

/// Whether `key` belongs to `height`: a key of at least 12 bytes carries
/// its height big-endian in bytes 8 to 11; shorter keys belong to every
/// height.
pub fn key_matches_height(key: &[u8], height: u32) -> (r: bool)
    ensures
        r == height_matches(key@, height),
        r == (key@.len() < 12 || (key@[8] as int) * 16777216 + (key@[9] as int) * 65536
        + (key@[10] as int) * 256 + (key@[11] as int) == height as int),
{
    if key.len() >= 12 {
        let key_height: u32 = (key[8] as u32) * 16777216 + (key[9] as u32) * 65536 + (key[10] as u32) * 256 + key[11] as u32;
        return key_height == height;
    }
    true
}

/// Whether the read item holds key `k`.
/// Whether a key of 12 bytes or more names `height` in its bytes 8 to 11,
/// most significant first; shorter keys match every height.
pub open spec fn height_matches(key: Seq<u8>, height: u32) -> bool {
    key.len() < 12 || (key[8] as int) * 16777216 + (key[9] as int) * 65536
        + (key[10] as int) * 256 + (key[11] as int) == height as int
}

/// Whether `item` was read as `k` holding `v`.
pub open spec fn item_holds(item: Option<(Vec<u8>, Vec<u8>)>, k: Seq<u8>, v: Seq<u8>) -> bool {
    match item {
        Some(kv) => kv.0@ == k && kv.1@ == v,
        None => false,
    }
}

/// Each key of `batch` holds the value of the last of the first `n` items
/// read with that key.
pub open spec fn holds_last_values(batch: Map<Seq<u8>, Seq<u8>>, items: Seq<Option<(Vec<u8>, Vec<u8>)>>, n: int) -> bool {
    forall|k: Seq<u8>| #[trigger] batch.contains_key(k) ==> exists|j: int| 0 <= j < n
        && item_holds(#[trigger] items[j], k, batch[k])
        && forall|j2: int| j < j2 < n ==> !item_key_is(#[trigger] items[j2], k)
}

pub open spec fn item_key_is(item: Option<(Vec<u8>, Vec<u8>)>, k: Seq<u8>) -> bool {
    match item {
        Some(kv) => kv.0@ == k,
        None => false,
    }
}

/// What one round of reading a store's prefix gave.
pub struct BatchScan {
    /// The keys and values taken, by key.
    pub batch: ByteMap,
    /// How many were taken.
    pub count: usize,
    /// Whether the reading is over: the prefix was left, the key limit was
    /// reached, or the items ran out with the iterator at its end.
    pub exhausted: bool,
    /// How many of the given items were consumed.
    pub consumed: usize,
}

/// Takes up to `batch_size` items from `items`, the next items an iterator
/// from the prefix yields (`None` for an item that could not be read),
/// skipping unreadable items and, with a height filter, keys of other
/// heights; stops at the first key outside the prefix, and when the total
/// taken reaches a nonzero `max_keys`.
pub fn collect_batch(
    items: &[Option<(Vec<u8>, Vec<u8>)>],
    iterator_ended: bool,
    prefix: &[u8],
    height_filter: Option<u32>,
    batch_size: usize,
    max_keys: usize,
    total_processed: usize,
) -> (r: BatchScan)
    requires total_processed as int + batch_size as int <= usize::MAX,
    ensures
        r.count <= batch_size,
        r.consumed <= items@.len(),
        r.batch@.dom().len() <= r.count,
        forall|k: Seq<u8>| #[trigger] r.batch@.contains_key(k) ==> k.len() >= prefix@.len() && k.subrange(0, prefix@.len() as int) == prefix@,
        forall|k: Seq<u8>| #[trigger] r.batch@.contains_key(k) ==> exists|j: int| 0 <= j < r.consumed
            && item_key_is(#[trigger] items@[j], k),
        holds_last_values(r.batch@, items@, r.consumed as int),
        r.consumed < items@.len() ==> r.exhausted || r.count == batch_size,
        r.consumed == items@.len() && iterator_ended && r.count < batch_size ==> r.exhausted,
{
    let mut batch = ByteMap::new();
    let mut count: usize = 0;
    let mut exhausted = false;
    let mut i: usize = 0;
    while count < batch_size
        invariant_except_break
            !exhausted,
        invariant
            i <= items@.len(),
            count <= batch_size,
            total_processed as int + batch_size as int <= usize::MAX,
            batch@.dom().finite(),
            batch@.dom().len() <= count,
            forall|k: Seq<u8>| #[trigger] batch@.contains_key(k) ==> k.len() >= prefix@.len() && k.subrange(0, prefix@.len() as int) == prefix@,
            forall|k: Seq<u8>| #[trigger] batch@.contains_key(k) ==> exists|j: int| 0 <= j < i
                && item_key_is(#[trigger] items@[j], k),
            holds_last_values(batch@, items@, i as int),
            forall|k: Seq<u8>| #[trigger] batch@.contains_key(k) ==> (height_filter matches Some(h) ==> height_matches(k, h)),
        ensures
            i <= items@.len(),
            count <= batch_size,
            batch@.dom().len() <= count,
            forall|k: Seq<u8>| #[trigger] batch@.contains_key(k) ==> k.len() >= prefix@.len() && k.subrange(0, prefix@.len() as int) == prefix@,
            forall|k: Seq<u8>| #[trigger] batch@.contains_key(k) ==> exists|j: int| 0 <= j < i
                && item_key_is(#[trigger] items@[j], k),
            holds_last_values(batch@, items@, i as int),
            i < items@.len() ==> exhausted || count == batch_size,
            i == items@.len() && iterator_ended && count < batch_size ==> exhausted,
        decreases items@.len() - i,
    {
        if i >= items.len() {
            if iterator_ended {
                exhausted = true;
            }
            break;
        }
        let item = &items[i];
        i = i + 1;
        match item {
            Some(kv) => {
                if !starts_with(&kv.0, prefix) {
                    exhausted = true;
                    break;
                }
                if let Some(h) = height_filter {
                    if !key_matches_height(&kv.0, h) {
                        continue;
                    }
                }
                let ghost before = batch@;
                proof { assert(batch@.dom().len() <= count); }
                batch.insert(copy_bytes(&kv.0), copy_bytes(&kv.1));
                proof {
                    if before.contains_key(kv.0@) {
                        assert(batch@.dom() =~= before.dom());
                    } else {
                        assert(batch@.dom() =~= before.dom().insert(kv.0@));
                    }
                }
                count = count + 1;
                if max_keys > 0 && total_processed + count >= max_keys {
                    exhausted = true;
                    break;
                }
            },
            None => {},
        }
    }
    BatchScan { batch, count, exhausted, consumed: i }
}

/// A write batch that remembers the keys it was given.
pub struct TrackingBatch<B: BatchLike> {
    pub inner: B,
    pub keys: Vec<Vec<u8>>,
}

impl<B: BatchLike> TrackingBatch<B> {
    pub fn new(inner: B) -> (b: Self)
        ensures b.inner.puts() == inner.puts(), b.keys@ == Seq::<Vec<u8>>::empty(),
    {
        TrackingBatch { inner, keys: Vec::new() }
    }
}

impl<B: BatchLike> BatchLike for TrackingBatch<B> {
    open spec fn puts(&self) -> Seq<(Seq<u8>, Seq<u8>)> {
        self.inner.puts()
    }

    fn put(&mut self, key: &[u8], value: &[u8]) {
        self.keys.push(copy_bytes(key));
        self.inner.put(key, value);
    }

    fn default() -> (b: Self) {
        TrackingBatch { inner: B::default(), keys: Vec::new() }
    }
}

/// A store that records the keys written under a prefix: by `put`, and by
/// the batches it writes.
pub struct TrackingAdapter<S: KeyValueStoreLike> {
    pub inner: S,
    pub prefix: Vec<u8>,
    pub tracked_keys: ByteSet,
}

/// `k` begins with `prefix`.
pub open spec fn has_prefix(k: Seq<u8>, prefix: Seq<u8>) -> bool {
    k.len() >= prefix.len() && k.subrange(0, prefix.len() as int) == prefix
}

impl<S: KeyValueStoreLike> TrackingAdapter<S> {
    pub fn new(inner: S, prefix: Vec<u8>) -> (a: Self)
        ensures a.inner.kv() == inner.kv(), a.prefix@ == prefix@, a.tracked_keys@ == Set::<Seq<u8>>::empty(),
    {
        TrackingAdapter { inner, prefix, tracked_keys: ByteSet::new() }
    }

    /// The keys recorded.
    pub fn get_tracked_keys(&self) -> (keys: Vec<Vec<u8>>)
        ensures views_set(keys@) == self.tracked_keys@, views_distinct(keys@),
    {
        let keys = self.tracked_keys.to_vec();
        assert(views_set(keys@) =~= self.tracked_keys@);
        keys
    }

    /// Forgets the keys recorded.
    pub fn clear_tracked_keys(&mut self)
        ensures final(self).tracked_keys@ == Set::<Seq<u8>>::empty(), final(self).inner.kv() == old(self).inner.kv(),
    {
        self.tracked_keys.clear();
    }

    fn track(&mut self, key: &[u8])
        ensures
            final(self).tracked_keys@ == (if has_prefix(key@, old(self).prefix@) {
                old(self).tracked_keys@.insert(key@)
            } else {
                old(self).tracked_keys@
            }),
            final(self).inner == old(self).inner,
            final(self).prefix == old(self).prefix,
    {
        if starts_with(key, &self.prefix) {
            self.tracked_keys.insert(copy_bytes(key));
        }
    }
}

impl<S: KeyValueStoreLike> KeyValueStoreLike for TrackingAdapter<S> {
    type Error = S::Error;
    type Batch = TrackingBatch<S::Batch>;

    open spec fn kv(&self) -> Map<Seq<u8>, Seq<u8>> {
        self.inner.kv()
    }

    open spec fn never_fails() -> bool {
        S::never_fails()
    }

    open spec fn write_effect(kv: Map<Seq<u8>, Seq<u8>>, puts: Seq<(Seq<u8>, Seq<u8>)>) -> Map<Seq<u8>, Seq<u8>> {
        S::write_effect(kv, puts)
    }

    open spec fn put_effect(kv: Map<Seq<u8>, Seq<u8>>, key: Seq<u8>, value: Seq<u8>) -> Map<Seq<u8>, Seq<u8>> {
        S::put_effect(kv, key, value)
    }

    open spec fn delete_effect(kv: Map<Seq<u8>, Seq<u8>>, key: Seq<u8>) -> Map<Seq<u8>, Seq<u8>> {
        S::delete_effect(kv, key)
    }

    fn write(&mut self, batch: TrackingBatch<S::Batch>) -> (r: Result<(), S::Error>)
        ensures
            final(self).tracked_keys@ == old(self).tracked_keys@.union(keys_with_prefix(batch.keys@, old(self).prefix@)),
            final(self).prefix == old(self).prefix,
    {
        let ghost start = self.tracked_keys@;
        let ghost p = self.prefix@;
        let mut i: usize = 0;
        while i < batch.keys.len()
            invariant
                i <= batch.keys@.len(),
                self.inner == old(self).inner,
                self.prefix == old(self).prefix,
                p == self.prefix@,
                self.tracked_keys@ == start.union(keys_with_prefix(batch.keys@.subrange(0, i as int), p)),
            decreases batch.keys@.len() - i,
        {
            self.track(&batch.keys[i]);
            proof {
                let ks = batch.keys@.subrange(0, i as int);
                let ks1 = batch.keys@.subrange(0, i + 1);
                assert forall|k: Seq<u8>| keys_with_prefix(ks1, p).contains(k) <==>
                    (keys_with_prefix(ks, p).contains(k) || (k == batch.keys@[i as int]@ && has_prefix(k, p))) by {
                    if keys_with_prefix(ks1, p).contains(k) {
                        let j = choose|j: int| 0 <= j < ks1.len() && #[trigger] ks1[j]@ == k;
                        if j < i {
                            assert(ks[j] == ks1[j]);
                        }
                    }
                    if keys_with_prefix(ks, p).contains(k) {
                        let j = choose|j: int| 0 <= j < ks.len() && #[trigger] ks[j]@ == k;
                        assert(ks1[j] == ks[j]);
                    }
                    if k == batch.keys@[i as int]@ && has_prefix(k, p) {
                        assert(ks1[i as int]@ == k);
                    }
                }
                assert(self.tracked_keys@ =~= start.union(keys_with_prefix(ks1, p)));
            }
            i = i + 1;
        }
        assert(batch.keys@.subrange(0, i as int) =~= batch.keys@);
        self.inner.write(batch.inner)
    }

    fn get(&mut self, key: &[u8]) -> (r: Result<Option<Vec<u8>>, S::Error>)
        ensures final(self).tracked_keys == old(self).tracked_keys, final(self).prefix == old(self).prefix,
    {
        self.inner.get(key)
    }

    fn delete(&mut self, key: &[u8]) -> (r: Result<(), S::Error>)
        ensures final(self).tracked_keys == old(self).tracked_keys, final(self).prefix == old(self).prefix,
    {
        self.inner.delete(key)
    }

    fn put(&mut self, key: &[u8], value: &[u8]) -> (r: Result<(), S::Error>)
        ensures
            final(self).tracked_keys@ == (if has_prefix(key@, old(self).prefix@) {
                old(self).tracked_keys@.insert(key@)
            } else {
                old(self).tracked_keys@
            }),
            final(self).prefix == old(self).prefix,
    {
        self.track(key);
        self.inner.put(key, value)
    }
}

/// What a comparison run learns of one block: both indexers wrote the same
/// keys and values under the prefix, they differed, or the block could not be
/// fetched or processed.
#[derive(Debug, Clone, Copy, PartialEq, Eq, Structural)]
pub enum DiffEvent {
    Success(u32),
    Difference(u32),
    Error(u32),
}

/// What a comparison run does next: go on with the next block, wait before
/// going on, or save its summary and stop.
#[derive(Debug, Clone, Copy, PartialEq, Eq, Structural)]
pub enum DiffAction {
    Continue,
    Wait,
    SaveSummaryAndStop,
}

/// Where a comparison run stands: the next height to process, the number of
/// blocks with differences and their heights, and when to stop.
pub struct DiffPipelineState {
    pub height: u32,
    pub diffs_found: usize,
    pub diff_limit: usize,
    pub exit_at: Option<u32>,
    pub diff_blocks: Vec<u32>,
}

/// `height` lies past the height the run is to stop at.
pub open spec fn past_exit(height: u32, exit_at: Option<u32>) -> bool {
    exit_at matches Some(e) && height > e
}

/// The fetcher of a comparison run keeps fetching `current` unless the run
/// is to stop there.
pub fn fetch_continues(current: u32, exit_at: Option<u32>) -> (r: bool)
    ensures r == !(exit_at matches Some(e) && current >= e),
{
    match exit_at {
        Some(e) => current < e,
        None => true,
    }
}

impl DiffPipelineState {
    /// A run that starts at `start`, with no difference found yet.
    pub fn new(start: u32, diff_limit: usize, exit_at: Option<u32>) -> (s: Self)
        ensures
            s.height == start,
            s.diffs_found == 0,
            s.diff_limit == diff_limit,
            s.exit_at == exit_at,
            s.diff_blocks@ == Seq::<u32>::empty(),
    {
        DiffPipelineState { height: start, diffs_found: 0, diff_limit, exit_at, diff_blocks: Vec::new() }
    }

    /// Takes in what was learnt of a block. A block without differences
    /// moves the run past it. A block with differences is counted and
    /// recorded; once the count reaches the limit the run stops, else it
    /// moves past the block. An error leaves the height where it was and the
    /// run waits. After a block that does not stop the run, the run stops
    /// once its height is past the height it is to stop at.
    pub fn on_result(&mut self, e: DiffEvent) -> (a: DiffAction)
        requires
            old(self).diffs_found < usize::MAX,
            e matches DiffEvent::Success(h) ==> h < u32::MAX,
            e matches DiffEvent::Difference(h) ==> (h < u32::MAX || old(self).diffs_found + 1 >= old(self).diff_limit),
        ensures
            final(self).diff_limit == old(self).diff_limit,
            final(self).exit_at == old(self).exit_at,
            match e {
                DiffEvent::Success(h) => {
                    &&& final(self).height == h + 1
                    &&& final(self).diffs_found == old(self).diffs_found
                    &&& final(self).diff_blocks@ == old(self).diff_blocks@
                    &&& a == (if past_exit((h + 1) as u32, old(self).exit_at) { DiffAction::SaveSummaryAndStop } else { DiffAction::Continue })
                },
                DiffEvent::Difference(h) => {
                    &&& final(self).diffs_found == old(self).diffs_found + 1
                    &&& final(self).diff_blocks@ == old(self).diff_blocks@.push(h)
                    &&& if old(self).diffs_found + 1 >= old(self).diff_limit {
                        final(self).height == old(self).height && a == DiffAction::SaveSummaryAndStop
                    } else {
                        &&& final(self).height == h + 1
                        &&& a == (if past_exit((h + 1) as u32, old(self).exit_at) { DiffAction::SaveSummaryAndStop } else { DiffAction::Continue })
                    }
                },
                DiffEvent::Error(_) => {
                    &&& final(self).height == old(self).height
                    &&& final(self).diffs_found == old(self).diffs_found
                    &&& final(self).diff_blocks@ == old(self).diff_blocks@
                    &&& a == (if past_exit(old(self).height, old(self).exit_at) { DiffAction::SaveSummaryAndStop } else { DiffAction::Wait })
                },
            },
    {
        let mut next = DiffAction::Continue;
        match e {
            DiffEvent::Success(h) => {
                self.height = h + 1;
            },
            DiffEvent::Difference(h) => {
                self.diffs_found = self.diffs_found + 1;
                self.diff_blocks.push(h);
                if self.diffs_found >= self.diff_limit {
                    return DiffAction::SaveSummaryAndStop;
                }
                self.height = h + 1;
            },
            DiffEvent::Error(_) => {
                next = DiffAction::Wait;
            },
        }
        match self.exit_at {
            Some(x) => {
                if self.height > x {
                    return DiffAction::SaveSummaryAndStop;
                }
            },
            None => {},
        }
        next
    }
}

/// The arguments of a comparison of two existing indexer databases.
#[derive(Debug, Clone)]
pub struct ExistingIndexersArgs {
    /// Where the first indexer's database is.
    pub primary_db_path: String,
    /// Where the database to compare against is.
    pub compare_db_path: String,
    /// The key prefix to compare, in hex with a leading `0x`.
    pub prefix: String,
    /// Where to save the diff reports.
    pub output_dir: Option<String>,
    /// How many keys to compare at most; 0 for all.
    pub max_keys: usize,
    /// How many differences to find before stopping.
    pub diff_limit: usize,
    /// The height the keys must carry, if any.
    pub height_filter: Option<u32>,
    /// How many keys to process at once.
    pub batch_size: usize,
    /// Whether to sort the keys before comparing.
    pub sort_keys: bool,
}

} // verus!
