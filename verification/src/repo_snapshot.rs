//! State snapshots of a metaprotocol: the entries at a block height, the
//! Merkle proofs that vouch for them, and their split into chunks.
//!
//! A chunk is hashed in its serialized form: a 64-bit little-endian count
//! of entries, then for each entry its key and its value, each preceded by
//! its 64-bit little-endian length.

use vstd::prelude::*;
use crate::bytes::{append_bytes, copy_bytes, vec_views};
use crate::hashing::{blake2b512, blake2b512_digest};
use crate::le::{le_bytes, le_encode, lemma_le_bytes_len};
use crate::merkle::{
    hash_views, key_path, node_hash, proof_path, tree_update, zero_hash, fold_up, leaf_hash_of,
    NodeModel, SparseMerkleTree,
};

verus! {

/// A key and its value in the state.
#[derive(Debug, Clone)]
pub struct KeyValueEntry {
    pub key: Vec<u8>,
    pub value: Vec<u8>,
}

/// A Merkle proof for the entry under `key`.
#[derive(Debug, Clone)]
pub struct MerkleProof {
    pub key: Vec<u8>,
    pub proof: Vec<crate::merkle::Hash>,
}

/// What describes a chunked snapshot.
#[derive(Debug, Clone)]
pub struct SnapshotMetadata {
    pub metaprotocol_id: String,
    pub block_hash: Vec<u8>,
    pub block_height: u32,
    pub state_root: crate::merkle::Hash,
    pub total_chunks: u32,
    pub total_size_bytes: u64,
    pub chunk_hashes: Vec<Vec<u8>>,
}

/// A run of consecutive entries of a snapshot.
#[derive(Debug, Clone)]
pub struct SnapshotChunk {
    pub chunk_index: u32,
    pub state_entries: Vec<KeyValueEntry>,
}

/// A snapshot of a metaprotocol's state at a block height.
#[derive(Debug, Clone)]
pub struct MetaprotocolSnapshot {
    pub metaprotocol_id: String,
    pub block_hash: Vec<u8>,
    pub block_height: u32,
    pub state_root: crate::merkle::Hash,
    pub state_entries: Vec<KeyValueEntry>,
    pub merkle_proofs: Option<Vec<MerkleProof>>,
}

/// The key and value of each entry.
pub open spec fn kv_views(es: Seq<KeyValueEntry>) -> Seq<(Seq<u8>, Seq<u8>)> {
    es.map_values(|e: KeyValueEntry| (e.key@, e.value@))
}

/// `b` preceded by its length as eight little-endian bytes.
pub open spec fn framed(b: Seq<u8>) -> Seq<u8> {
    le_bytes(b.len(), 8) + b
}

/// The framed keys and values of the entries, one after the other.
pub open spec fn entries_body(es: Seq<(Seq<u8>, Seq<u8>)>) -> Seq<u8>
    decreases es.len(),
{
    if es.len() == 0 {
        Seq::empty()
    } else {
        entries_body(es.drop_last()) + framed(es.last().0) + framed(es.last().1)
    }
}

/// The serialized form of a list of entries.
pub open spec fn entries_form(es: Seq<(Seq<u8>, Seq<u8>)>) -> Seq<u8> {
    le_bytes(es.len(), 8) + entries_body(es)
}

/// The runs of at most `size` consecutive items that `s` splits into.
pub open spec fn chunks_of<T>(s: Seq<T>, size: nat) -> Seq<Seq<T>>
    decreases s.len(),
{
    if s.len() == 0 || size == 0 {
        Seq::empty()
    } else if s.len() <= size {
        seq![s]
    } else {
        seq![s.subrange(0, size as int)] + chunks_of(s.subrange(size as int, s.len() as int), size)
    }
}

/// The items of a list of runs, in order.
pub open spec fn flatten_runs<T>(runs: Seq<Seq<T>>) -> Seq<T>
    decreases runs.len(),
{
    if runs.len() == 0 { Seq::empty() } else { runs[0] + flatten_runs(runs.drop_first()) }
}

/// The total length of the serialized forms of the runs.
pub open spec fn forms_size(runs: Seq<Seq<(Seq<u8>, Seq<u8>)>>) -> nat
    decreases runs.len(),
{
    if runs.len() == 0 { 0 } else { forms_size(runs.drop_last()) + entries_form(runs.last()).len() }
}

/// The cache and root after storing the entries one after the other in an
/// empty tree.
pub open spec fn tree_of(es: Seq<(Seq<u8>, Seq<u8>)>) -> (Map<Seq<u8>, NodeModel>, Seq<u8>)
    decreases es.len(),
{
    if es.len() == 0 {
        (Map::empty(), zero_hash())
    } else {
        let (c, r) = tree_of(es.drop_last());
        tree_update(c, r, key_path(es.last().0), 0, es.last().0, blake2b512(es.last().1))
    }
}

/// Whether `proof` shows `key` holding `value` under `root`.
pub open spec fn proof_verifies(key: Seq<u8>, value: Seq<u8>, proof: Seq<Seq<u8>>, root: Seq<u8>) -> bool {
    proof.len() >= 256 && fold_up(key_path(key), proof.subrange(0, 256), 0, leaf_hash_of(key, value)) == root
}

/// Splitting into runs and putting the runs back together gives the list.
pub proof fn lemma_chunks_flatten<T>(s: Seq<T>, size: nat)
    requires size > 0,
    ensures
        flatten_runs(chunks_of(s, size)) == s,
        forall|i: int| 0 <= i < chunks_of(s, size).len() ==>
            0 < (#[trigger] chunks_of(s, size)[i]).len() <= size,
    decreases s.len(),
{
    if s.len() == 0 {
    } else if s.len() <= size {
        let runs = chunks_of(s, size);
        assert(runs.drop_first() =~= Seq::<Seq<T>>::empty());
        assert(flatten_runs(runs.drop_first()) == Seq::<T>::empty());
        assert(flatten_runs(runs) =~= s);
    } else {
        let rest = s.subrange(size as int, s.len() as int);
        lemma_chunks_flatten(rest, size);
        let runs = chunks_of(s, size);
        assert(runs.drop_first() =~= chunks_of(rest, size));
        assert(flatten_runs(runs) =~= s.subrange(0, size as int) + rest);
        assert(s.subrange(0, size as int) + rest =~= s);
        assert forall|i: int| 0 <= i < runs.len() implies 0 < (#[trigger] runs[i]).len() <= size by {
            if i > 0 {
                assert(runs[i] == chunks_of(rest, size)[i - 1]);
            }
        };
    }
}

/// A copy of an entry.
pub fn copy_entry(e: &KeyValueEntry) -> (r: KeyValueEntry)
    ensures r.key@ == e.key@, r.value@ == e.value@,
{
    KeyValueEntry { key: copy_bytes(&e.key), value: copy_bytes(&e.value) }
}

/// Copies of the entries `es[start..end]`.
pub fn copy_entries(es: &Vec<KeyValueEntry>, start: usize, end: usize) -> (r: Vec<KeyValueEntry>)
    requires start <= end <= es@.len(),
    ensures kv_views(r@) == kv_views(es@).subrange(start as int, end as int),
{
    let mut r: Vec<KeyValueEntry> = Vec::new();
    let mut i = start;
    while i < end
        invariant
            start <= i <= end <= es@.len(),
            kv_views(r@) == kv_views(es@).subrange(start as int, i as int),
        decreases end - i,
    {
        let e = copy_entry(&es[i]);
        let ghost before = kv_views(r@);
        r.push(e);
        assert(kv_views(r@) =~= before.push((es@[i as int].key@, es@[i as int].value@)));
        assert(kv_views(es@).subrange(start as int, i + 1) =~= kv_views(es@).subrange(start as int, i as int).push(kv_views(es@)[i as int]));
        i = i + 1;
    }
    r
}

/// Appends `b` with its length in front.
fn push_framed(out: &mut Vec<u8>, b: &[u8])
    ensures final(out)@ == old(out)@ + framed(b@),
{
    let len = le_encode(b.len() as u128, 8);
    append_bytes(out, &len);
    append_bytes(out, b);
    assert(old(out)@ + len@ + b@ =~= old(out)@ + framed(b@));
}

/// The serialized form of a list of entries.
pub fn encode_entries(es: &[KeyValueEntry]) -> (out: Vec<u8>)
    ensures out@ == entries_form(kv_views(es@)),
{
    let mut out = le_encode(es.len() as u128, 8);
    let ghost head = out@;
    let mut i: usize = 0;
    while i < es.len()
        invariant
            i <= es@.len(),
            head == le_bytes(es@.len() as nat, 8),
            out@ == head + entries_body(kv_views(es@).subrange(0, i as int)),
        decreases es@.len() - i,
    {
        let ghost s = kv_views(es@).subrange(0, i + 1);
        assert(s.drop_last() =~= kv_views(es@).subrange(0, i as int));
        push_framed(&mut out, &es[i].key);
        push_framed(&mut out, &es[i].value);
        assert(out@ =~= head + entries_body(s));
        i = i + 1;
    }
    assert(kv_views(es@).subrange(0, i as int) =~= kv_views(es@));
    out
}

/// Whether each of the first `upto` entries is shown, by the proof at the
/// same position, to hold its value under `root`.
pub open spec fn entries_verified(es: Seq<KeyValueEntry>, ps: Seq<MerkleProof>, root: Seq<u8>, upto: int) -> bool {
    forall|i: int| 0 <= i < upto ==> #[trigger] proof_verifies(es[i].key@, es[i].value@, hash_views(ps[i].proof@), root)
}

/// The views of a list of proofs: each key with its sibling hashes.
pub open spec fn proof_views(ps: Seq<MerkleProof>) -> Seq<(Seq<u8>, Seq<Seq<u8>>)> {
    ps.map_values(|p: MerkleProof| (p.key@, hash_views(p.proof@)))
}

/// For each entry, its key and the proof for that key in the tree of all
/// the entries.
pub open spec fn generated_proofs(es: Seq<(Seq<u8>, Seq<u8>)>) -> Seq<(Seq<u8>, Seq<Seq<u8>>)> {
    Seq::new(es.len(), |i: int| (es[i].0, proof_path(tree_of(es).0, tree_of(es).1, key_path(es[i].0), 0)))
}

impl MetaprotocolSnapshot {
    /// A snapshot without proofs.
    pub fn new(
        metaprotocol_id: String,
        block_hash: Vec<u8>,
        block_height: u32,
        state_root: crate::merkle::Hash,
        state_entries: Vec<KeyValueEntry>,
    ) -> (s: Self)
        ensures
            s.metaprotocol_id@ == metaprotocol_id@,
            s.block_hash@ == block_hash@,
            s.block_height == block_height,
            s.state_root@ == state_root@,
            kv_views(s.state_entries@) == kv_views(state_entries@),
            s.merkle_proofs is None,
    {
        MetaprotocolSnapshot {
            metaprotocol_id,
            block_hash,
            block_height,
            state_root,
            state_entries,
            merkle_proofs: None,
        }
    }

    /// Stores every entry, in order, in an empty tree and records, for each
    /// entry, the proof that tree gives for its key.
    pub fn generate_proofs(&mut self)
        ensures
            final(self).metaprotocol_id@ == old(self).metaprotocol_id@,
            final(self).block_hash@ == old(self).block_hash@,
            final(self).block_height == old(self).block_height,
            final(self).state_root@ == old(self).state_root@,
            kv_views(final(self).state_entries@) == kv_views(old(self).state_entries@),
            final(self).merkle_proofs matches Some(ps) && proof_views(ps@) == generated_proofs(kv_views(old(self).state_entries@)),
    {
        let ghost es = kv_views(self.state_entries@);
        let mut tree = SparseMerkleTree::new();
        let mut i: usize = 0;
        while i < self.state_entries.len()
            invariant
                i <= self.state_entries@.len(),
                es == kv_views(self.state_entries@),
                (tree.cache(), tree.root_view()) == tree_of(es.subrange(0, i as int)),
            decreases self.state_entries@.len() - i,
        {
            assert(es.subrange(0, i + 1).drop_last() =~= es.subrange(0, i as int));
            tree.update(&self.state_entries[i].key, &self.state_entries[i].value);
            i = i + 1;
        }
        assert(es.subrange(0, i as int) =~= es);
        let mut proofs: Vec<MerkleProof> = Vec::with_capacity(self.state_entries.len());
        let mut j: usize = 0;
        while j < self.state_entries.len()
            invariant
                j <= self.state_entries@.len(),
                es == kv_views(self.state_entries@),
                (tree.cache(), tree.root_view()) == tree_of(es),
                proof_views(proofs@) == Seq::new(j as nat, |k: int|
                    (es[k].0, proof_path(tree_of(es).0, tree_of(es).1, key_path(es[k].0), 0))),
            decreases self.state_entries@.len() - j,
        {
            let key = copy_bytes(&self.state_entries[j].key);
            let proof = tree.generate_proof(&self.state_entries[j].key);
            let ghost before = proof_views(proofs@);
            assert(es[j as int].0 == self.state_entries@[j as int].key@);
            proofs.push(MerkleProof { key, proof });
            assert(proof_views(proofs@) =~= before.push((es[j as int].0, proof_path(tree_of(es).0, tree_of(es).1, key_path(es[j as int].0), 0))));
            assert(proof_views(proofs@) =~= Seq::new((j + 1) as nat, |k: int|
                (es[k].0, proof_path(tree_of(es).0, tree_of(es).1, key_path(es[k].0), 0))));
            j = j + 1;
        }
        assert(proof_views(proofs@) =~= generated_proofs(es));
        self.merkle_proofs = Some(proofs);
    }

    /// Whether every entry is shown, by the proof at the same position, to
    /// hold its value under the snapshot's state root; `false` when there
    /// are no proofs.
    pub fn verify(&self) -> (r: bool)
        requires
            self.merkle_proofs matches Some(ps) ==> ps@.len() >= self.state_entries@.len(),
        ensures
            r == (match self.merkle_proofs {
                Some(ps) => entries_verified(self.state_entries@, ps@, self.state_root@, self.state_entries@.len() as int),
                None => false,
            }),
    {
        let proofs = match &self.merkle_proofs {
            Some(p) => p,
            None => return false,
        };
        let mut i: usize = 0;
        while i < self.state_entries.len()
            invariant
                i <= self.state_entries@.len() <= proofs@.len(),
                self.merkle_proofs == Some(*proofs),
                entries_verified(self.state_entries@, proofs@, self.state_root@, i as int),
            decreases self.state_entries@.len() - i,
        {
            let entry = &self.state_entries[i];
            let proof = &proofs[i];
            if !SparseMerkleTree::verify_proof(&entry.key, &entry.value, &proof.proof, &self.state_root) {
                assert(!proof_verifies(self.state_entries@[i as int].key@, self.state_entries@[i as int].value@,
                    hash_views(proofs@[i as int].proof@), self.state_root@));
                return false;
            }
            i = i + 1;
        }
        true
    }

    /// Whether each entry at the given positions is shown, by the proof at
    /// the same position, to hold its value under the state root; `false`
    /// when there are no proofs or no positions.
    pub fn verify_entries_at(&self, indices: &[usize]) -> (r: bool)
        requires
            self.merkle_proofs matches Some(ps) ==> ps@.len() >= self.state_entries@.len(),
            forall|k: int| 0 <= k < indices@.len() ==> #[trigger] indices@[k] < self.state_entries@.len(),
        ensures
            r == (self.merkle_proofs matches Some(ps) && indices@.len() > 0 && forall|k: int| 0 <= k < indices@.len() ==> {
                let i = #[trigger] indices@[k] as int;
                proof_verifies(self.state_entries@[i].key@, self.state_entries@[i].value@,
                    hash_views(ps@[i].proof@), self.state_root@)
            }),
    {
        let proofs = match &self.merkle_proofs {
            Some(p) => p,
            None => return false,
        };
        if indices.len() == 0 {
            return false;
        }
        let mut k: usize = 0;
        while k < indices.len()
            invariant
                k <= indices@.len(),
                self.state_entries@.len() <= proofs@.len(),
                self.merkle_proofs == Some(*proofs),
                forall|m: int| 0 <= m < indices@.len() ==> #[trigger] indices@[m] < self.state_entries@.len(),
                forall|m: int| 0 <= m < k ==> {
                    let i = #[trigger] indices@[m] as int;
                    proof_verifies(self.state_entries@[i].key@, self.state_entries@[i].value@,
                        hash_views(proofs@[i].proof@), self.state_root@)
                },
            decreases indices@.len() - k,
        {
            let index = indices[k];
            let entry = &self.state_entries[index];
            let proof = &proofs[index];
            if !SparseMerkleTree::verify_proof(&entry.key, &entry.value, &proof.proof, &self.state_root) {
                assert(!proof_verifies(self.state_entries@[index as int].key@, self.state_entries@[index as int].value@,
                    hash_views(proofs@[index as int].proof@), self.state_root@));
                return false;
            }
            k = k + 1;
        }
        true
    }

    /// Splits the entries into runs of `chunk_size` (the last may be
    /// shorter), numbered from 0, and describes them: the count, the total
    /// size of their serialized forms, and the digest of each form.
    pub fn split_into_chunks(&self, chunk_size: usize) -> (r: (SnapshotMetadata, Vec<SnapshotChunk>))
        requires
            chunk_size > 0,
            forms_size(chunks_of(kv_views(self.state_entries@), chunk_size as nat)) <= u64::MAX,
        ensures ({
            let (meta, chunks) = r;
            let runs = chunks_of(kv_views(self.state_entries@), chunk_size as nat);
            &&& chunks@.len() == runs.len()
            &&& forall|i: int| 0 <= i < runs.len() ==> (#[trigger] chunks@[i]).chunk_index == i as u32
                && kv_views(chunks@[i].state_entries@) == runs[i]
            &&& meta.metaprotocol_id@ == self.metaprotocol_id@
            &&& meta.block_hash@ == self.block_hash@
            &&& meta.block_height == self.block_height
            &&& meta.state_root@ == self.state_root@
            &&& meta.total_chunks == runs.len() as u32
            &&& meta.total_size_bytes == forms_size(runs)
            &&& vec_views(meta.chunk_hashes@) == runs.map_values(|run: Seq<(Seq<u8>, Seq<u8>)>| blake2b512(entries_form(run)))
        }),
    {
        let ghost es = kv_views(self.state_entries@);
        let ghost runs = chunks_of(es, chunk_size as nat);
        let mut chunks: Vec<SnapshotChunk> = Vec::new();
        let mut chunk_hashes: Vec<Vec<u8>> = Vec::new();
        let mut total_size_bytes: u64 = 0;
        let n = self.state_entries.len();
        let mut start: usize = 0;
        let mut i: usize = 0;
        proof {
            lemma_forms_size_prefix(runs, 0);
            assert(es.subrange(0, n as int) =~= es);
            assert(runs.subrange(0, runs.len() as int) =~= runs);
            assert(runs.subrange(0, 0) =~= Seq::<Seq<(Seq<u8>, Seq<u8>)>>::empty());
            assert(runs.subrange(0, 0).map_values(|run: Seq<(Seq<u8>, Seq<u8>)>| blake2b512(entries_form(run)))
                =~= Seq::<Seq<u8>>::empty());
            assert(vec_views(chunk_hashes@) =~= Seq::<Seq<u8>>::empty());
        }
        while start < n
            invariant
                es == kv_views(self.state_entries@),
                runs == chunks_of(es, chunk_size as nat),
                chunk_size > 0,
                n == self.state_entries@.len(),
                start <= n,
                i <= start,
                i <= runs.len(),
                runs.subrange(i as int, runs.len() as int) == chunks_of(es.subrange(start as int, n as int), chunk_size as nat),
                start < n ==> i < runs.len(),
                forms_size(runs) <= u64::MAX,
                chunks@.len() == i,
                forall|k: int| 0 <= k < i ==> (#[trigger] chunks@[k]).chunk_index == k as u32
                    && kv_views(chunks@[k].state_entries@) == runs[k],
                vec_views(chunk_hashes@) == runs.subrange(0, i as int).map_values(
                    |run: Seq<(Seq<u8>, Seq<u8>)>| blake2b512(entries_form(run))),
                total_size_bytes == forms_size(runs.subrange(0, i as int)),
            decreases n - start,
        {
            let end = if n - start > chunk_size { start + chunk_size } else { n };
            let ghost rest = es.subrange(start as int, n as int);
            proof {
                let cr = chunks_of(rest, chunk_size as nat);
                assert(rest.subrange(0, (end - start) as int) =~= es.subrange(start as int, end as int));
                assert(rest.subrange((end - start) as int, rest.len() as int) =~= es.subrange(end as int, n as int));
                assert(runs.subrange(i as int, runs.len() as int)[0] == runs[i as int]);
                assert(runs.subrange(i + 1, runs.len() as int) =~= runs.subrange(i as int, runs.len() as int).drop_first());
                if end == n {
                    assert(es.subrange(end as int, n as int) =~= Seq::<(Seq<u8>, Seq<u8>)>::empty());
                    assert(rest =~= es.subrange(start as int, end as int));
                    assert(cr == seq![rest]);
                    assert(cr.drop_first() =~= Seq::<Seq<(Seq<u8>, Seq<u8>)>>::empty());
                } else {
                    assert(cr == seq![rest.subrange(0, chunk_size as int)]
                        + chunks_of(rest.subrange(chunk_size as int, rest.len() as int), chunk_size as nat));
                    assert(cr.drop_first() =~= chunks_of(es.subrange(end as int, n as int), chunk_size as nat));
                }
                assert(runs[i as int] == es.subrange(start as int, end as int));
                assert(runs.subrange(i + 1, runs.len() as int) == chunks_of(es.subrange(end as int, n as int), chunk_size as nat));
            }
            let chunk_entries = copy_entries(&self.state_entries, start, end);
            let chunk_data = encode_entries(&chunk_entries);
            proof {
                lemma_forms_size_prefix(runs, (i + 1) as nat);
                assert(runs.subrange(0, i + 1).drop_last() =~= runs.subrange(0, i as int));
            }
            total_size_bytes = total_size_bytes + chunk_data.len() as u64;
            let digest = blake2b512_digest(&chunk_data);
            let chunk_hash = copy_bytes(digest.as_slice());
            let ghost hashes_before = vec_views(chunk_hashes@);
            chunk_hashes.push(chunk_hash);
            assert(runs.subrange(0, i + 1).map_values(|run: Seq<(Seq<u8>, Seq<u8>)>| blake2b512(entries_form(run)))
                =~= runs.subrange(0, i as int).map_values(|run: Seq<(Seq<u8>, Seq<u8>)>| blake2b512(entries_form(run)))
                    .push(blake2b512(entries_form(runs[i as int]))));
            assert(vec_views(chunk_hashes@) =~= runs.subrange(0, i + 1).map_values(
                |run: Seq<(Seq<u8>, Seq<u8>)>| blake2b512(entries_form(run))));
            chunks.push(SnapshotChunk { chunk_index: i as u32, state_entries: chunk_entries });
            start = end;
            i = i + 1;
        }
        proof {
            assert(es.subrange(start as int, n as int) =~= Seq::<(Seq<u8>, Seq<u8>)>::empty());
            assert(runs.subrange(i as int, runs.len() as int).len() == 0);
            assert(runs.subrange(0, i as int) =~= runs);
        }
        let metadata = SnapshotMetadata {
            metaprotocol_id: self.metaprotocol_id.clone(),
            block_hash: copy_bytes(&self.block_hash),
            block_height: self.block_height,
            state_root: self.state_root,
            total_chunks: chunks.len() as u32,
            total_size_bytes,
            chunk_hashes,
        };
        (metadata, chunks)
    }
}

proof fn lemma_forms_size_prefix(runs: Seq<Seq<(Seq<u8>, Seq<u8>)>>, i: nat)
    requires i <= runs.len(),
    ensures forms_size(runs.subrange(0, i as int)) <= forms_size(runs),
    decreases runs.len(),
{
    if i < runs.len() {
        assert(runs.drop_last().subrange(0, i as int) =~= runs.subrange(0, i as int));
        lemma_forms_size_prefix(runs.drop_last(), i);
    } else {
        assert(runs.subrange(0, i as int) =~= runs);
    }
}

} // verus!
