//! A finite map from byte strings to byte strings, kept as a list of entries
//! with pairwise distinct keys.

use vstd::prelude::*;
use crate::bytes::{bytes_eq, copy_bytes};

verus! {

/// The views of a list of entries.
pub open spec fn entry_views(s: Seq<(Vec<u8>, Vec<u8>)>) -> Seq<(Seq<u8>, Seq<u8>)> {
    s.map_values(|e: (Vec<u8>, Vec<u8>)| (e.0@, e.1@))
}

/// No key occurs twice.
pub open spec fn keys_distinct<V>(s: Seq<(Seq<u8>, V)>) -> bool {
    forall|i: int, j: int| 0 <= i < j < s.len() ==> s[i].0 != s[j].0
}

/// The map a list of entries denotes: later entries win.
pub open spec fn entries_map<V>(s: Seq<(Seq<u8>, V)>) -> Map<Seq<u8>, V>
    decreases s.len(),
{
    if s.len() == 0 {
        Map::empty()
    } else {
        entries_map(s.drop_last()).insert(s.last().0, s.last().1)
    }
}

pub proof fn lemma_entries_map_dom<V>(s: Seq<(Seq<u8>, V)>, k: Seq<u8>)
    ensures entries_map(s).contains_key(k) <==> exists|i: int| 0 <= i < s.len() && s[i].0 == k,
    decreases s.len(),
{
    if s.len() > 0 {
        lemma_entries_map_dom(s.drop_last(), k);
        if entries_map(s).contains_key(k) && s.last().0 != k {
            let i = choose|i: int| 0 <= i < s.drop_last().len() && s.drop_last()[i].0 == k;
            assert(s[i].0 == k);
        }
        if exists|i: int| 0 <= i < s.len() && s[i].0 == k {
            let i = choose|i: int| 0 <= i < s.len() && s[i].0 == k;
            if i < s.len() - 1 {
                assert(s.drop_last()[i].0 == k);
            }
        }
    }
}

pub proof fn lemma_entries_map_value<V>(s: Seq<(Seq<u8>, V)>, i: int)
    requires keys_distinct(s), 0 <= i < s.len(),
    ensures entries_map(s).contains_key(s[i].0), entries_map(s)[s[i].0] == s[i].1,
    decreases s.len(),
{
    if i < s.len() - 1 {
        lemma_entries_map_value(s.drop_last(), i);
        assert(s.drop_last()[i] == s[i]);
    }
}

pub proof fn lemma_entries_map_update<V>(s: Seq<(Seq<u8>, V)>, i: int, v: V)
    requires keys_distinct(s), 0 <= i < s.len(),
    ensures
        entries_map(s.update(i, (s[i].0, v))) == entries_map(s).insert(s[i].0, v),
        keys_distinct(s.update(i, (s[i].0, v))),
    decreases s.len(),
{
    let t = s.update(i, (s[i].0, v));
    if i == s.len() - 1 {
        assert(t.drop_last() =~= s.drop_last());
        assert(entries_map(t) =~= entries_map(s).insert(s[i].0, v));
    } else {
        lemma_entries_map_update(s.drop_last(), i, v);
        assert(t.drop_last() =~= s.drop_last().update(i, (s[i].0, v)));
        assert(entries_map(t) =~= entries_map(s).insert(s[i].0, v));
    }
}

pub proof fn lemma_entries_map_remove<V>(s: Seq<(Seq<u8>, V)>, i: int)
    requires keys_distinct(s), 0 <= i < s.len(),
    ensures
        entries_map(s.remove(i)) == entries_map(s).remove(s[i].0),
        keys_distinct(s.remove(i)),
    decreases s.len(),
{
    let t = s.remove(i);
    let k = s[i].0;
    if i == s.len() - 1 {
        assert(t =~= s.drop_last());
        lemma_entries_map_dom(s.drop_last(), k);
        assert(entries_map(t) =~= entries_map(s).remove(k));
    } else {
        lemma_entries_map_remove(s.drop_last(), i);
        assert(t.drop_last() =~= s.drop_last().remove(i));
        assert(t.last() == s.last());
        assert(entries_map(t) =~= entries_map(s).remove(k));
    }
}

pub proof fn lemma_entries_map_push_fresh<V>(s: Seq<(Seq<u8>, V)>, k: Seq<u8>, v: V)
    requires keys_distinct(s), !entries_map(s).contains_key(k),
    ensures
        entries_map(s.push((k, v))) == entries_map(s).insert(k, v),
        keys_distinct(s.push((k, v))),
{
    let t = s.push((k, v));
    assert(t.drop_last() =~= s);
    lemma_entries_map_dom(s, k);
}

/// Lookup of `k` in `m` as an optional value.
pub open spec fn lookup(m: Map<Seq<u8>, Seq<u8>>, k: Seq<u8>) -> Option<Seq<u8>> {
    if m.contains_key(k) { Some(m[k]) } else { None }
}

/// The view of an optional byte vector.
pub open spec fn opt_view(o: Option<Vec<u8>>) -> Option<Seq<u8>> {
    match o {
        Some(v) => Some(v@),
        None => None,
    }
}

/// A map from byte strings to byte strings.
pub struct ByteMap {
    entries: Vec<(Vec<u8>, Vec<u8>)>,
}

impl View for ByteMap {
    type V = Map<Seq<u8>, Seq<u8>>;

    closed spec fn view(&self) -> Map<Seq<u8>, Seq<u8>> {
        entries_map(entry_views(self.entries@))
    }
}

impl ByteMap {
    /// The entries in their stored order.
    pub closed spec fn entry_seq(&self) -> Seq<(Seq<u8>, Seq<u8>)> {
        entry_views(self.entries@)
    }

    /// The internal invariant: keys are pairwise distinct.
    #[verifier::type_invariant]
    pub closed spec fn wf(&self) -> bool {
        keys_distinct(entry_views(self.entries@))
    }

    /// The map is the one its entries denote.
    pub proof fn lemma_view_is_entry_map(&self)
        ensures self@ == entries_map(self.entry_seq()),
    {
    }

    pub proof fn lemma_view_is_entries(&self)
        requires self.wf(),
        ensures
            self@ == entries_map(self.entry_seq()),
            keys_distinct(self.entry_seq()),
            self@.dom().finite(),
            self@.dom().len() == self.entry_seq().len(),
    {
        lemma_entries_map_finite(self.entry_seq());
    }

    pub fn new() -> (m: Self)
        ensures m@ == Map::<Seq<u8>, Seq<u8>>::empty(), m.entry_seq() == Seq::<(Seq<u8>, Seq<u8>)>::empty(),
    {
        let m = ByteMap { entries: Vec::new() };
        assert(entry_views(m.entries@) =~= Seq::<(Seq<u8>, Seq<u8>)>::empty());
        m
    }

    /// The number of keys.
    pub fn len(&self) -> (n: usize)
        ensures n == self@.dom().len(),
    {
        proof { use_type_invariant(self); }
        proof { lemma_entries_map_finite(self.entry_seq()); }
        self.entries.len()
    }

    /// The position of `key` among the entries.
    fn find(&self, key: &[u8]) -> (r: Option<usize>)
        ensures
            r matches Some(i) ==> i < self.entries@.len() && self.entries@[i as int].0@ == key@,
            r is Some <==> self@.contains_key(key@),
    {
        proof { use_type_invariant(self); }
        let mut i: usize = 0;
        while i < self.entries.len()
            invariant
                self.wf(),
                i <= self.entries@.len(),
                forall|j: int| 0 <= j < i ==> self.entries@[j].0@ != key@,
            decreases self.entries@.len() - i,
        {
            if bytes_eq(&self.entries[i].0, key) {
                proof {
                    lemma_entries_map_value(entry_views(self.entries@), i as int);
                }
                return Some(i);
            }
            i = i + 1;
        }
        proof {
            let s = entry_views(self.entries@);
            lemma_entries_map_dom(s, key@);
            if self@.contains_key(key@) {
                let j = choose|j: int| 0 <= j < s.len() && s[j].0 == key@;
                assert(self.entries@[j].0@ == s[j].0);
            }
        }
        None
    }

    /// The value stored under `key`.
    pub fn get(&self, key: &[u8]) -> (r: Option<&Vec<u8>>)
        ensures
            r is Some <==> self@.contains_key(key@),
            r matches Some(v) ==> v@ == self@[key@],
    {
        proof { use_type_invariant(self); }
        match self.find(key) {
            Some(i) => {
                proof {
                    lemma_entries_map_value(entry_views(self.entries@), i as int);
                }
                Some(&self.entries[i].1)
            },
            None => None,
        }
    }

    /// Whether `key` has a value.
    pub fn contains_key(&self, key: &[u8]) -> (r: bool)
        ensures r == self@.contains_key(key@),
    {
        self.get(key).is_some()
    }

    /// Stores `value` under `key`.
    pub fn insert(&mut self, key: Vec<u8>, value: Vec<u8>)
        ensures
            final(self)@ == old(self)@.insert(key@, value@),
            old(self)@.contains_key(key@) ==> final(self).entry_seq().len() == old(self).entry_seq().len(),
            !old(self)@.contains_key(key@) ==> final(self).entry_seq() == old(self).entry_seq().push((key@, value@)),
    {
        proof { use_type_invariant(&*self); }
        let found = self.find(&key);
        let ghost s = entry_views(self.entries@);
        let mut entries: Vec<(Vec<u8>, Vec<u8>)> = Vec::new();
        std::mem::swap(&mut entries, &mut self.entries);
        assert(entry_views(entries@) == s);
        match found {
            Some(i) => {
                let k = copy_bytes(&entries[i].0);
                entries.set(i, (k, value));
                proof {
                    lemma_entries_map_update(s, i as int, value@);
                    assert(entry_views(entries@) =~= s.update(i as int, (s[i as int].0, value@)));
                }
            },
            None => {
                let ghost kv = key@;
                entries.push((key, value));
                proof {
                    lemma_entries_map_push_fresh(s, kv, value@);
                    assert(entry_views(entries@) =~= s.push((kv, value@)));
                }
            },
        }
        self.entries = entries;
    }

    /// Removes `key` and returns its value.
    pub fn remove(&mut self, key: &[u8]) -> (r: Option<Vec<u8>>)
        ensures
            final(self)@ == old(self)@.remove(key@),
            opt_view(r) == lookup(old(self)@, key@),
    {
        proof { use_type_invariant(&*self); }
        match self.find(key) {
            Some(i) => {
                let ghost s = entry_views(self.entries@);
                proof { lemma_entries_map_value(s, i as int); }
                let mut entries: Vec<(Vec<u8>, Vec<u8>)> = Vec::new();
                std::mem::swap(&mut entries, &mut self.entries);
                assert(entry_views(entries@) == s);
                let (_k, v) = entries.remove(i);
                proof {
                    lemma_entries_map_remove(s, i as int);
                    assert(entry_views(entries@) =~= s.remove(i as int));
                }
                self.entries = entries;
                Some(v)
            },
            None => {
                assert(self@.remove(key@) =~= self@);
                None
            },
        }
    }

    /// Removes every key.
    pub fn clear(&mut self)
        ensures final(self)@ == Map::<Seq<u8>, Seq<u8>>::empty(),
            final(self).entry_seq() == Seq::<(Seq<u8>, Seq<u8>)>::empty(),
    {
        self.entries = Vec::new();
        assert(entry_views(self.entries@) =~= Seq::<(Seq<u8>, Seq<u8>)>::empty());
    }

    /// Copies of all entries, each key once.
    pub fn pairs(&self) -> (out: Vec<(Vec<u8>, Vec<u8>)>)
        ensures
            entry_views(out@) == self.entry_seq(),
            keys_distinct(entry_views(out@)),
            entries_map(entry_views(out@)) == self@,
    {
        proof { use_type_invariant(self); }
        let mut out: Vec<(Vec<u8>, Vec<u8>)> = Vec::new();
        let mut i: usize = 0;
        while i < self.entries.len()
            invariant
                i <= self.entries@.len(),
                entry_views(out@) == entry_views(self.entries@).subrange(0, i as int),
            decreases self.entries@.len() - i,
        {
            let k = copy_bytes(&self.entries[i].0);
            let v = copy_bytes(&self.entries[i].1);
            let ghost before = out@;
            out.push((k, v));
            proof {
                assert(out@ == before.push((k, v)));
                assert(entry_views(out@) =~= entry_views(before).push((k@, v@)));
            }
            i = i + 1;
            assert(entry_views(out@) =~= entry_views(self.entries@).subrange(0, i as int));
        }
        assert(entry_views(self.entries@).subrange(0, i as int) =~= entry_views(self.entries@));
        out
    }

    /// A copy of this map.
    pub fn clone(&self) -> (c: Self)
        ensures c@ == self@, c.entry_seq() == self.entry_seq(),
    {
        proof { use_type_invariant(self); }
        let entries = self.pairs();
        ByteMap { entries }
    }

    /// Copies of all keys, each once.
    pub fn keys(&self) -> (out: Vec<Vec<u8>>)
        ensures
            out@.len() == self.entry_seq().len(),
            forall|i: int| 0 <= i < out@.len() ==> #[trigger] out@[i]@ == self.entry_seq()[i].0,
    {
        proof { use_type_invariant(self); }
        let mut out: Vec<Vec<u8>> = Vec::new();
        let mut i: usize = 0;
        while i < self.entries.len()
            invariant
                i <= self.entries@.len(),
                out@.len() == i,
                forall|j: int| 0 <= j < i ==> #[trigger] out@[j]@ == entry_views(self.entries@)[j].0,
            decreases self.entries@.len() - i,
        {
            out.push(copy_bytes(&self.entries[i].0));
            i = i + 1;
        }
        out
    }
}

pub proof fn lemma_entries_map_finite<V>(s: Seq<(Seq<u8>, V)>)
    requires keys_distinct(s),
    ensures entries_map(s).dom().finite(), entries_map(s).dom().len() == s.len(),
    decreases s.len(),
{
    if s.len() > 0 {
        let t = s.drop_last();
        lemma_entries_map_finite(t);
        lemma_entries_map_dom(t, s.last().0);
        if entries_map(t).contains_key(s.last().0) {
            let i = choose|i: int| 0 <= i < t.len() && t[i].0 == s.last().0;
            assert(s[i].0 == s[s.len() - 1].0);
        }
    }
}

/// A finite set of byte strings.
pub struct ByteSet {
    map: ByteMap,
}

impl View for ByteSet {
    type V = Set<Seq<u8>>;

    closed spec fn view(&self) -> Set<Seq<u8>> {
        self.map@.dom()
    }
}

impl ByteSet {
    pub fn new() -> (s: Self)
        ensures s@ == Set::<Seq<u8>>::empty(),
    {
        let s = ByteSet { map: ByteMap::new() };
        assert(s.map@.dom() =~= Set::<Seq<u8>>::empty());
        s
    }

    /// Adds `v`.
    pub fn insert(&mut self, v: Vec<u8>)
        ensures final(self)@ == old(self)@.insert(v@),
    {
        let ghost before = self.map@;
        self.map.insert(v, Vec::new());
        assert(self.map@.dom() =~= before.dom().insert(v@));
    }

    /// Whether `v` is an element.
    pub fn contains(&self, v: &[u8]) -> (r: bool)
        ensures r == self@.contains(v@),
    {
        self.map.contains_key(v)
    }

    /// Removes `v`.
    pub fn remove(&mut self, v: &[u8])
        ensures final(self)@ == old(self)@.remove(v@),
    {
        let ghost before = self.map@;
        let _ = self.map.remove(v);
        assert(self.map@.dom() =~= before.dom().remove(v@));
    }

    /// Removes every element.
    pub fn clear(&mut self)
        ensures final(self)@ == Set::<Seq<u8>>::empty(),
    {
        self.map.clear();
        assert(self.map@.dom() =~= Set::<Seq<u8>>::empty());
    }

    /// The number of elements.
    pub fn len(&self) -> (n: usize)
        ensures n == self@.len(), self@.finite(),
    {
        proof { use_type_invariant(&self.map); self.map.lemma_view_is_entries(); }
        self.map.len()
    }

    /// Whether there is no element.
    pub fn is_empty(&self) -> (r: bool)
        ensures r == (self@ == Set::<Seq<u8>>::empty()),
    {
        let n = self.len();
        if n == 0 {
            assert(self@ =~= Set::<Seq<u8>>::empty());
            true
        } else {
            proof {
                if self@ == Set::<Seq<u8>>::empty() {
                    assert(self@.len() == 0);
                }
            }
            false
        }
    }

    /// Adds every element of `other`.
    pub fn extend(&mut self, other: &ByteSet)
        ensures final(self)@ == old(self)@.union(other@),
    {
        let items = other.to_vec();
        let ghost start = self@;
        let mut i: usize = 0;
        while i < items.len()
            invariant
                i <= items@.len(),
                self@ == start.union(Set::new(|x: Seq<u8>| exists|j: int| 0 <= j < i && items@[j]@ == x)),
                forall|x: Seq<u8>| other@.contains(x) <==> exists|j: int| 0 <= j < items@.len() && items@[j]@ == x,
            decreases items@.len() - i,
        {
            let ghost pre = self@;
            let v = crate::bytes::copy_bytes(&items[i]);
            self.insert(v);
            i = i + 1;
            assert(self@ =~= start.union(Set::new(|x: Seq<u8>| exists|j: int| 0 <= j < i && items@[j]@ == x))) by {
                assert forall|x: Seq<u8>| (exists|j: int| 0 <= j < i && items@[j]@ == x) implies
                    self@.contains(x) by {
                    let j = choose|j: int| 0 <= j < i && items@[j]@ == x;
                    if j < i - 1 {
                        assert(pre.contains(x));
                    }
                }
                assert forall|x: Seq<u8>| self@.contains(x) && !start.contains(x) implies
                    (exists|j: int| 0 <= j < i && items@[j]@ == x) by {
                    if x != items@[i - 1]@ {
                        assert(pre.contains(x));
                    }
                }
            }
        }
        assert(self@ =~= start.union(other@));
    }

    /// Copies of the elements, each once.
    pub fn to_vec(&self) -> (out: Vec<Vec<u8>>)
        ensures
            forall|x: Seq<u8>| self@.contains(x) <==> exists|j: int| 0 <= j < out@.len() && out@[j]@ == x,
            forall|i: int, j: int| 0 <= i < j < out@.len() ==> out@[i]@ != out@[j]@,
            out@.len() == self@.len(),
    {
        proof { use_type_invariant(&self.map); self.map.lemma_view_is_entries(); }
        let out = self.map.keys();
        proof {
            let es = self.map.entry_seq();
            assert forall|x: Seq<u8>| self@.contains(x) <==> exists|j: int| 0 <= j < out@.len() && out@[j]@ == x by {
                lemma_entries_map_dom(es, x);
                if self@.contains(x) {
                    let j = choose|j: int| 0 <= j < es.len() && es[j].0 == x;
                    assert(out@[j]@ == x);
                }
                if exists|j: int| 0 <= j < out@.len() && out@[j]@ == x {
                    let j = choose|j: int| 0 <= j < out@.len() && out@[j]@ == x;
                    assert(es[j].0 == x);
                }
            }
            assert forall|i: int, j: int| 0 <= i < j < out@.len() implies out@[i]@ != out@[j]@ by {
                assert(out@[i]@ == es[i].0 && out@[j]@ == es[j].0);
            }
        }
        out
    }
}

} // verus!
