//! What the on-disk store adapter decides: key labels, the stored tip
//! height, and the buckets of its buffer pool.

use vstd::prelude::*;
use crate::bytes::{append_bytes, copy_bytes};
use crate::codec::{le32, le32_value, u32_from_le4, u32_to_le_bytes};

verus! {

/// `/__INTERNAL/tip-height`: the key of the height to index next.
pub open spec fn tip_height_key() -> Seq<u8> {
    seq![47u8, 95u8, 95u8, 73u8, 78u8, 84u8, 69u8, 82u8, 78u8, 65u8, 76u8, 47u8, 116u8, 105u8, 112u8, 45u8, 104u8,
        101u8, 105u8, 103u8, 104u8, 116u8]
}

/// The key of the tip height.
pub fn tip_height_key_bytes() -> (k: Vec<u8>)
    ensures k@ == tip_height_key(),
{
    let k: Vec<u8> = vec![47, 95, 95, 73, 78, 84, 69, 82, 78, 65, 76, 47, 116, 105, 112, 45, 104, 101, 105, 103, 104, 116];
    assert(k@ =~= tip_height_key());
    k
}

/// The label prefix made from a label name: the name followed by `://`.
pub fn make_label(name: &[u8]) -> (label: Vec<u8>)
    ensures label@ == name@ + seq![58u8, 47u8, 47u8],
{
    let mut label = copy_bytes(name);
    label.push(58);
    label.push(47);
    label.push(47);
    assert(label@ =~= name@ + seq![58u8, 47u8, 47u8]);
    label
}

/// `key` under the label, if there is one.
pub fn to_labeled_key(label: &Option<Vec<u8>>, key: &[u8]) -> (k: Vec<u8>)
    ensures k@ == (match label {
        Some(l) => l@ + key@,
        None => key@,
    }),
{
    match label {
        Some(l) => {
            let mut result = copy_bytes(l);
            append_bytes(&mut result, key);
            result
        },
        None => copy_bytes(key),
    }
}

/// The height to index next, from the stored tip height: the starting
/// block when none is stored (or it is empty), else its little-endian
/// value.
pub fn query_height_from(stored: Option<Vec<u8>>, start_block: u32) -> (h: u32)
    requires stored matches Some(b) ==> b@.len() == 0 || b@.len() == 4,
    ensures h == (match stored {
        Some(b) => if b@.len() == 0 { start_block } else { le32_value(b@) },
        None => start_block,
    }),
{
    match stored {
        Some(b) => {
            if b.len() == 0 {
                start_block
            } else {
                let v = u32_from_le4(b[0], b[1], b[2], b[3]);
                assert(b@ =~= seq![b@[0], b@[1], b@[2], b@[3]]);
                v
            }
        },
        None => start_block,
    }
}

/// The entry a batch write adds: the tip height becomes the height after
/// the one just indexed, under the labeled tip key.
pub fn tip_height_entry(label: &Option<Vec<u8>>, height: u32) -> (e: (Vec<u8>, Vec<u8>))
    requires height < u32::MAX,
    ensures
        e.0@ == (match label {
            Some(l) => l@ + tip_height_key(),
            None => tip_height_key(),
        }),
        e.1@ == le32((height + 1) as u32),
{
    let key = tip_height_key_bytes();
    let labeled = to_labeled_key(label, &key);
    let value = u32_to_le_bytes(height + 1);
    (labeled, copy_bytes(value.as_slice()))
}

/// `2^k`.
pub open spec fn pow2(k: nat) -> nat
    decreases k,
{
    if k == 0 { 1 } else { 2 * pow2((k - 1) as nat) }
}

/// Whether `n` is a power of two.
pub open spec fn is_pow2(n: nat) -> bool {
    exists|k: nat| pow2(k) == n
}

/// The size class of a buffer of this capacity: 32 up to 32, then the
/// powers of two up to 2048, then the next power of two.
pub fn get_bucket_size(capacity: usize) -> (b: usize)
    requires capacity <= usize::MAX / 2 + 1,
    ensures
        b >= capacity,
        b >= 32,
        is_pow2(b as nat),
        capacity <= 32 ==> b == 32,
        capacity > 32 ==> b / 2 < capacity,
{
    if capacity <= 32 {
        assert(pow2(5) == 32) by { reveal_with_fuel(pow2, 6); }
        return 32;
    }
    let mut b: usize = 64;
    let ghost mut k: nat = 6;
    assert(pow2(6) == 64) by { reveal_with_fuel(pow2, 7); }
    while b < capacity
        invariant
            64 <= b,
            b as nat == pow2(k),
            b / 2 < capacity,
            capacity <= usize::MAX / 2 + 1,
        decreases usize::MAX - b,
    {
        b = b * 2;
        proof { k = k + 1; }
    }
    b
}

/// Calls `Vec::capacity`, which the standard library documents as at least
/// the length.
#[verifier::external_body]
fn vec_capacity(v: &Vec<u8>) -> (c: usize)
    ensures c >= v@.len(),
{
    v.capacity()
}

/// Reusable byte buffers, grouped by size class.
pub struct MemoryPool {
    pools: Vec<(usize, Vec<Vec<u8>>)>,
}

impl MemoryPool {
    #[verifier::type_invariant]
    closed spec fn wf(&self) -> bool {
        forall|i: int, j: int| 0 <= i < j < self.pools@.len() ==> self.pools@[i].0 != self.pools@[j].0
    }

    /// The number of pooled buffers of size class `b`.
    pub closed spec fn count_of(&self, b: usize) -> nat {
        if exists|i: int| 0 <= i < self.pools@.len() && self.pools@[i].0 == b {
            self.pools@[choose|i: int| 0 <= i < self.pools@.len() && self.pools@[i].0 == b].1@.len()
        } else {
            0
        }
    }

    pub fn new() -> (p: Self)
        ensures forall|b: usize| #[trigger] p.count_of(b) == 0,
    {
        MemoryPool { pools: Vec::new() }
    }

    /// The position of the pool of size class `b`.
    fn find(&self, b: usize) -> (r: Option<usize>)
        ensures
            r matches Some(i) ==> i < self.pools@.len() && self.pools@[i as int].0 == b
                && self.count_of(b) == self.pools@[i as int].1@.len(),
            r is None ==> self.count_of(b) == 0 && forall|j: int| 0 <= j < self.pools@.len() ==> self.pools@[j].0 != b,
    {
        proof { use_type_invariant(self); }
        let mut i: usize = 0;
        while i < self.pools.len()
            invariant
                self.wf(),
                i <= self.pools@.len(),
                forall|j: int| 0 <= j < i ==> self.pools@[j].0 != b,
            decreases self.pools@.len() - i,
        {
            if self.pools[i].0 == b {
                proof {
                    let c = choose|k: int| 0 <= k < self.pools@.len() && self.pools@[k].0 == b;
                    if c != i {
                        assert(self.pools@[c].0 == self.pools@[i as int].0);
                    }
                }
                return Some(i);
            }
            i = i + 1;
        }
        None
    }

    /// An empty buffer: a pooled one of the size class of `capacity` if
    /// there is one, else a new one.
    pub fn get(&mut self, capacity: usize) -> (v: Vec<u8>)
        requires capacity <= usize::MAX / 2 + 1,
        ensures
            v@.len() == 0,
            forall|b: usize| b != spec_bucket(capacity) ==> #[trigger] final(self).count_of(b) == old(self).count_of(b),
            final(self).count_of(spec_bucket(capacity)) == (if old(self).count_of(spec_bucket(capacity)) > 0 {
                (old(self).count_of(spec_bucket(capacity)) - 1) as nat
            } else {
                0
            }),
    {
        proof { use_type_invariant(&*self); }
        let bucket_size = get_bucket_size(capacity);
        proof { lemma_bucket_spec(capacity, bucket_size); }
        match self.find(bucket_size) {
            Some(i) => {
                let mut pools = Vec::new();
                std::mem::swap(&mut pools, &mut self.pools);
                let ghost before = pools@;
                let mut entry = (0usize, Vec::new());
                std::mem::swap(&mut entry, &mut pools[i]);
                let v = match entry.1.pop() {
                    Some(mut v) => {
                        v.clear();
                        v
                    },
                    None => Vec::with_capacity(bucket_size),
                };
                pools.set(i, entry);
                assert(pools@ == before.update(i as int, pools@[i as int]));
                self.pools = pools;
                proof { self.lemma_counts_after_update(before, i as int); }
                v
            },
            None => Vec::with_capacity(bucket_size),
        }
    }

    /// Keeps `vec`, emptied, for reuse in the size class of its capacity
    /// (which is at least its length): that class holds one more buffer,
    /// every other class the same.
    pub fn put(&mut self, vec: Vec<u8>)
        ensures
            exists|c: usize| c >= vec@.len() && #[trigger] one_more(*old(self), *final(self), pool_bucket(c)),
    {
        proof { use_type_invariant(&*self); }
        let mut vec = vec;
        let cap = vec_capacity(&vec);
        let bucket_size = if cap > usize::MAX / 2 + 1 {
            0
        } else {
            let b = get_bucket_size(cap);
            proof { lemma_bucket_spec(cap, b); }
            b
        };
        assert(bucket_size == pool_bucket(cap));
        vec.clear();
        match self.find(bucket_size) {
            Some(i) => {
                let mut pools = Vec::new();
                std::mem::swap(&mut pools, &mut self.pools);
                let ghost before = pools@;
                let mut entry = (0usize, Vec::new());
                std::mem::swap(&mut entry, &mut pools[i]);
                entry.1.push(vec);
                pools.set(i, entry);
                assert(pools@ == before.update(i as int, pools@[i as int]));
                self.pools = pools;
                proof {
                    self.lemma_counts_after_update(before, i as int);
                    assert forall|b: usize| b != bucket_size implies #[trigger] self.count_of(b) == old(self).count_of(b) by {};
                }
            },
            None => {
                let ghost before = self.pools@;
                let mut stack = Vec::new();
                stack.push(vec);
                let mut pools = Vec::new();
                std::mem::swap(&mut pools, &mut self.pools);
                pools.push((bucket_size, stack));
                self.pools = pools;
                proof {
                    assert(self.pools@[before.len() as int].0 == bucket_size);
                    assert forall|b: usize| b != bucket_size implies #[trigger] self.count_of(b) == old(self).count_of(b) by {
                        if exists|k: int| 0 <= k < self.pools@.len() && self.pools@[k].0 == b {
                            let c = choose|k: int| 0 <= k < self.pools@.len() && self.pools@[k].0 == b;
                            assert(c < before.len());
                            assert(before[c].0 == b);
                            let d = choose|k: int| 0 <= k < before.len() && before[k].0 == b;
                            assert(before[d] == self.pools@[d]);
                            if c != d {
                                assert(before[c].0 == before[d].0);
                            }
                        } else {
                            if exists|k: int| 0 <= k < before.len() && before[k].0 == b {
                                let d = choose|k: int| 0 <= k < before.len() && before[k].0 == b;
                                assert(self.pools@[d].0 == b);
                            }
                        }
                    };
                    let c = choose|k: int| 0 <= k < self.pools@.len() && self.pools@[k].0 == bucket_size;
                    if c != before.len() {
                        assert(before[c].0 == bucket_size);
                    }
                    assert(self.count_of(bucket_size) == 1);
                }
            },
        }
        assert(one_more(*old(self), *self, pool_bucket(cap)));
    }

    proof fn lemma_counts_after_update(&self, before: Seq<(usize, Vec<Vec<u8>>)>, i: int)
        requires
            0 <= i < before.len(),
            self.pools@.len() == before.len(),
            self.pools@ == before.update(i, self.pools@[i]),
            self.pools@[i].0 == before[i].0,
            forall|p: int, q: int| 0 <= p < q < before.len() ==> before[p].0 != before[q].0,
        ensures
            forall|b: usize| b != before[i].0 ==> #[trigger] self.count_of(b) == (if exists|k: int| 0 <= k < before.len() && before[k].0 == b {
                before[choose|k: int| 0 <= k < before.len() && before[k].0 == b].1@.len()
            } else {
                0
            }),
            self.count_of(before[i].0) == self.pools@[i].1@.len(),
    {
        let bi = before[i].0;
        let c = choose|k: int| 0 <= k < self.pools@.len() && self.pools@[k].0 == bi;
        if c != i {
            assert(before[c].0 == bi);
        }
        assert forall|b: usize| b != bi implies #[trigger] self.count_of(b) == (if exists|k: int| 0 <= k < before.len() && before[k].0 == b {
            before[choose|k: int| 0 <= k < before.len() && before[k].0 == b].1@.len()
        } else {
            0
        }) by {
            if exists|k: int| 0 <= k < before.len() && before[k].0 == b {
                let d = choose|k: int| 0 <= k < before.len() && before[k].0 == b;
                assert(self.pools@[d].0 == b);
                let e = choose|k: int| 0 <= k < self.pools@.len() && self.pools@[k].0 == b;
                if e != d {
                    assert(before[e].0 == b);
                }
            } else {
                if exists|k: int| 0 <= k < self.pools@.len() && self.pools@[k].0 == b {
                    let e = choose|k: int| 0 <= k < self.pools@.len() && self.pools@[k].0 == b;
                    assert(before[e].0 == b);
                }
            }
        };
    }
}

/// The size class a buffer of this capacity is kept in: [`spec_bucket`],
/// or 0 when the next power of two does not fit (the rounding then wraps
/// to 0).
pub open spec fn pool_bucket(capacity: usize) -> usize {
    if capacity <= usize::MAX / 2 + 1 { spec_bucket(capacity) } else { 0 }
}

/// `after` holds one more buffer of class `b` than `before`, and as many
/// of every other class.
pub open spec fn one_more(before: MemoryPool, after: MemoryPool, b: usize) -> bool {
    &&& after.count_of(b) == before.count_of(b) + 1
    &&& forall|x: usize| x != b ==> #[trigger] after.count_of(x) == before.count_of(x)
}

/// The size class of a capacity.
pub open spec fn spec_bucket(capacity: usize) -> usize {
    if capacity <= 32 { 32 } else { choose|b: usize| b >= capacity && is_pow2(b as nat) && b / 2 < capacity }
}

proof fn lemma_bucket_spec(capacity: usize, b: usize)
    requires
        b >= capacity,
        is_pow2(b as nat),
        capacity <= 32 ==> b == 32,
        capacity > 32 ==> b / 2 < capacity,
    ensures b == spec_bucket(capacity),
{
    if capacity > 32 {
        let c = choose|c: usize| c >= capacity && is_pow2(c as nat) && c / 2 < capacity;
        lemma_pow2_unique_between(b as nat, c as nat, capacity as nat);
    }
}

proof fn lemma_pow2_unique_between(a: nat, b: nat, n: nat)
    requires is_pow2(a), is_pow2(b), a >= n, b >= n, a / 2 < n, b / 2 < n, n > 1,
    ensures a == b,
{
    let ka = choose|k: nat| pow2(k) == a;
    let kb = choose|k: nat| pow2(k) == b;
    if ka < kb {
        lemma_pow2_monotone(ka, (kb - 1) as nat);
        assert(pow2(kb) == 2 * pow2((kb - 1) as nat));
    } else if kb < ka {
        lemma_pow2_monotone(kb, (ka - 1) as nat);
        assert(pow2(ka) == 2 * pow2((ka - 1) as nat));
    }
}

proof fn lemma_pow2_monotone(a: nat, b: nat)
    requires a <= b,
    ensures pow2(a) <= pow2(b),
    decreases b,
{
    if a < b {
        lemma_pow2_monotone(a, (b - 1) as nat);
    }
}

} // verus!
