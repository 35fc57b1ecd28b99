//! The snapshot repository: the configuration of its server and client, the
//! metaprotocols a server hosts, building a snapshot from a merkleized
//! database, and putting a downloaded snapshot back together.

use vstd::prelude::*;
use vstd::utf8::encode_utf8;
use vstd::string::StringSliceAdditionalSpecFns;
use crate::byte_map::{entries_map, entry_views, keys_distinct, lemma_entries_map_dom, lemma_entries_map_push_fresh,
    lemma_entries_map_update, lemma_entries_map_value};
use crate::bytes::{append_bytes, bytes_eq, copy_bytes};
use crate::merkle::{pending_views, zero_hash, NodeModel};
use crate::merkleized::{store_apply, tree_apply, MerkleizedRocksDBBatch, MerkleizedRocksDBRuntimeAdapter};
use crate::repo_snapshot::{
    chunks_of, copy_entries, copy_entry, entries_verified, flatten_runs, generated_proofs, kv_views,
    lemma_chunks_flatten, proof_verifies, proof_views, tree_of, KeyValueEntry, MetaprotocolSnapshot,
    SnapshotChunk, SnapshotMetadata,
};
use crate::merkle::hash_views;
use crate::store::KeyValueStoreLike;

verus! {

/// Why a repository operation failed.
#[derive(Debug, Clone, PartialEq, Eq)]
pub enum RepoError {
    /// A request could not be made or answered.
    Request(String),
    /// A snapshot did not verify.
    Verification(String),
    /// Something asked for is not there.
    NotFound(String),
    /// Data is malformed.
    InvalidData(String),
}

/// The configuration of a repository server.
#[derive(Clone, Debug)]
pub struct RepoConfig {
    /// Where snapshots are stored.
    pub snapshot_dir: std::path::PathBuf,
    /// The port to listen on.
    pub port: u16,
    /// The address to bind to.
    pub host: String,
}

/// Calls `PathBuf::from` on a string slice; a path is opaque here, so
/// nothing is claimed of it.
#[verifier::external_body]
fn path_from(s: &str) -> std::path::PathBuf {
    std::path::PathBuf::from(s)
}

impl Default for RepoConfig {
    /// Snapshots under `./snapshots`, on port 8090 of every address.
    fn default() -> (r: Self)
        ensures r.port == 8090, r.host@ == "0.0.0.0"@,
    {
        RepoConfig { snapshot_dir: path_from("./snapshots"), port: 8090, host: "0.0.0.0".to_owned() }
    }
}

/// The configuration of a repository client.
#[derive(Clone, Debug)]
pub struct ClientConfig {
    /// The URL of the repository server.
    pub repo_url: String,
    /// The timeout of a request, in seconds.
    pub timeout_secs: u64,
}

impl Default for ClientConfig {
    /// The public repository, with a one-minute timeout.
    fn default() -> (r: Self)
        ensures r.repo_url@ == "https://repo.sandshrew.io"@, r.timeout_secs == 60,
    {
        ClientConfig { repo_url: "https://repo.sandshrew.io".to_owned(), timeout_secs: 60 }
    }
}

/// What a server knows of a metaprotocol.
#[derive(Clone, Debug)]
pub struct MetaprotocolInfo {
    /// Its identifier.
    pub id: String,
    /// Its human-readable name.
    pub name: String,
    /// What it is.
    pub description: String,
    /// The height of its latest block.
    pub latest_block: u32,
    /// The time of its latest snapshot.
    pub latest_snapshot: u64,
}

/// The UTF-8 bytes of an identifier, by which metaprotocols are found.
pub open spec fn id_key(id: Seq<char>) -> Seq<u8> {
    encode_utf8(id)
}

/// The infos of a list, each under the key of its identifier.
pub open spec fn info_entries(infos: Seq<MetaprotocolInfo>) -> Seq<(Seq<u8>, MetaprotocolInfo)> {
    infos.map_values(|i: MetaprotocolInfo| (id_key(i.id@), i))
}

/// A repository server: its configuration and the metaprotocols it hosts,
/// at most one under each identifier.
pub struct RepoServer {
    config: RepoConfig,
    metaprotocols: Vec<MetaprotocolInfo>,
}

impl RepoServer {
    #[verifier::type_invariant]
    closed spec fn wf(&self) -> bool {
        keys_distinct(info_entries(self.metaprotocols@))
    }

    /// The hosted metaprotocols, by the key of their identifier.
    pub closed spec fn registry(&self) -> Map<Seq<u8>, MetaprotocolInfo> {
        entries_map(info_entries(self.metaprotocols@))
    }

    /// The configuration.
    pub closed spec fn spec_config(&self) -> RepoConfig {
        self.config
    }

    /// A server with the given configuration that hosts nothing yet.
    pub fn new(config: RepoConfig) -> (s: Self)
        ensures s.registry() == Map::<Seq<u8>, MetaprotocolInfo>::empty(), s.spec_config() == config,
    {
        let s = RepoServer { config, metaprotocols: Vec::new() };
        assert(info_entries(s.metaprotocols@) =~= Seq::<(Seq<u8>, MetaprotocolInfo)>::empty());
        s
    }

    /// The configuration.
    pub fn config(&self) -> (c: &RepoConfig)
        ensures *c == self.spec_config(),
    {
        &self.config
    }

    /// The position of the metaprotocol with the identifier whose UTF-8
    /// bytes are `key`.
    fn position_of(&self, key: &[u8]) -> (r: Option<usize>)
        ensures
            r matches Some(i) ==> i < self.metaprotocols@.len() && id_key(self.metaprotocols@[i as int].id@) == key@,
            r is None ==> !self.registry().contains_key(key@),
    {
        let mut i: usize = 0;
        while i < self.metaprotocols.len()
            invariant
                i <= self.metaprotocols@.len(),
                forall|j: int| 0 <= j < i ==> id_key(#[trigger] self.metaprotocols@[j].id@) != key@,
            decreases self.metaprotocols@.len() - i,
        {
            if bytes_eq(self.metaprotocols[i].id.as_str().as_bytes(), key) {
                return Some(i);
            }
            i = i + 1;
        }
        proof {
            let es = info_entries(self.metaprotocols@);
            lemma_entries_map_dom(es, key@);
            if self.registry().contains_key(key@) {
                let j = choose|j: int| 0 <= j < es.len() && es[j].0 == key@;
                assert(id_key(self.metaprotocols@[j].id@) == key@);
            }
        }
        None
    }

    /// Hosts `info` under its identifier, in place of what was there.
    pub fn register_metaprotocol(&mut self, info: MetaprotocolInfo)
        ensures
            final(self).registry() == old(self).registry().insert(id_key(info.id@), info),
            final(self).spec_config() == old(self).spec_config(),
    {
        proof { use_type_invariant(&*self); }
        let ghost key = id_key(info.id@);
        let ghost es = info_entries(self.metaprotocols@);
        let found = self.position_of(info.id.as_str().as_bytes());
        let mut list: Vec<MetaprotocolInfo> = Vec::new();
        std::mem::swap(&mut list, &mut self.metaprotocols);
        match found {
            Some(i) => {
                proof {
                    lemma_entries_map_update(es, i as int, info);
                    assert(info_entries(list@.update(i as int, info)) =~= es.update(i as int, (es[i as int].0, info)));
                }
                list.set(i, info);
            },
            None => {
                proof {
                    lemma_entries_map_push_fresh(es, key, info);
                    assert(info_entries(list@.push(info)) =~= es.push((key, info)));
                }
                list.push(info);
            },
        }
        self.metaprotocols = list;
    }

    /// The identifiers of the hosted metaprotocols, each once.
    pub fn metaprotocol_ids(&self) -> (ids: Vec<String>)
        ensures
            forall|i: int, j: int| 0 <= i < j < ids@.len() ==> id_key(ids@[i]@) != id_key(ids@[j]@),
            forall|i: int| 0 <= i < ids@.len() ==> self.registry().contains_key(#[trigger] id_key(ids@[i]@)),
            forall|k: Seq<u8>| #[trigger] self.registry().contains_key(k) ==> exists|i: int| 0 <= i < ids@.len() && id_key(ids@[i]@) == k,
    {
        proof { use_type_invariant(self); }
        let ghost es = info_entries(self.metaprotocols@);
        let mut ids: Vec<String> = Vec::new();
        let mut i: usize = 0;
        while i < self.metaprotocols.len()
            invariant
                es == info_entries(self.metaprotocols@),
                keys_distinct(es),
                i <= self.metaprotocols@.len(),
                ids@.len() == i,
                forall|j: int| 0 <= j < i ==> (#[trigger] ids@[j])@ == self.metaprotocols@[j].id@,
            decreases self.metaprotocols@.len() - i,
        {
            ids.push(self.metaprotocols[i].id.clone());
            i = i + 1;
        }
        proof {
            assert forall|a: int, b: int| 0 <= a < b < ids@.len() implies id_key(ids@[a]@) != id_key(ids@[b]@) by {
                assert(es[a].0 != es[b].0);
            };
            assert forall|a: int| 0 <= a < ids@.len() implies self.registry().contains_key(#[trigger] id_key(ids@[a]@)) by {
                lemma_entries_map_value(es, a);
            };
            assert forall|k: Seq<u8>| #[trigger] self.registry().contains_key(k) implies exists|a: int| 0 <= a < ids@.len() && id_key(ids@[a]@) == k by {
                lemma_entries_map_dom(es, k);
                let a = choose|a: int| 0 <= a < es.len() && es[a].0 == k;
                assert(id_key(ids@[a]@) == k);
            };
        }
        ids
    }

    /// The height of the latest block of the metaprotocol `id`, when it is
    /// hosted.
    pub fn latest_block_of(&self, id: &str) -> (r: Option<u32>)
        ensures
            r == (if self.registry().contains_key(id_key(id@)) {
                Some(self.registry()[id_key(id@)].latest_block)
            } else {
                None::<u32>
            }),
    {
        proof { use_type_invariant(self); }
        match self.position_of(id.as_bytes()) {
            Some(i) => {
                proof { lemma_entries_map_value(info_entries(self.metaprotocols@), i as int); }
                Some(self.metaprotocols[i].latest_block)
            },
            None => None,
        }
    }
}

/// A database whose contents can be read together with the root of its
/// Merkle tree.
pub trait MerkleizedDatabaseReader {
    /// The root of the tree.
    fn state_root(&self) -> crate::merkle::Hash;

    /// The stored keys that begin with `prefix`, each with its value.
    fn prefix_entries(&self, prefix: &[u8]) -> Vec<(Vec<u8>, Vec<u8>)>;
}

/// The prefix of every key of a metaprotocol: its identifier and a slash.
pub fn metaprotocol_prefix(metaprotocol_id: &str) -> (p: Vec<u8>)
    ensures p@ == metaprotocol_id.spec_bytes().push(47u8),
{
    let mut p: Vec<u8> = Vec::new();
    append_bytes(&mut p, metaprotocol_id.as_bytes());
    p.push(47u8);
    p
}

/// A snapshot of the pairs with, for each, the proof from the tree of all
/// of them.
pub fn snapshot_from_entries(
    metaprotocol_id: &str,
    block_hash: Vec<u8>,
    block_height: u32,
    state_root: crate::merkle::Hash,
    pairs: Vec<(Vec<u8>, Vec<u8>)>,
) -> (s: MetaprotocolSnapshot)
    ensures
        s.metaprotocol_id@ == metaprotocol_id@,
        s.block_hash@ == block_hash@,
        s.block_height == block_height,
        s.state_root@ == state_root@,
        kv_views(s.state_entries@) == entry_views(pairs@),
        s.merkle_proofs matches Some(ps) && proof_views(ps@) == generated_proofs(entry_views(pairs@)),
{
    let mut entries: Vec<KeyValueEntry> = Vec::new();
    let mut i: usize = 0;
    while i < pairs.len()
        invariant
            i <= pairs@.len(),
            kv_views(entries@) == entry_views(pairs@).subrange(0, i as int),
        decreases pairs@.len() - i,
    {
        let e = KeyValueEntry { key: copy_bytes(&pairs[i].0), value: copy_bytes(&pairs[i].1) };
        let ghost before = kv_views(entries@);
        entries.push(e);
        assert(kv_views(entries@) =~= before.push((pairs@[i as int].0@, pairs@[i as int].1@)));
        assert(entry_views(pairs@)[i as int] == (pairs@[i as int].0@, pairs@[i as int].1@));
        assert(kv_views(entries@) =~= entry_views(pairs@).subrange(0, i + 1));
        i = i + 1;
    }
    assert(entry_views(pairs@).subrange(0, i as int) =~= entry_views(pairs@));
    let mut snapshot = MetaprotocolSnapshot::new(metaprotocol_id.to_owned(), block_hash, block_height, state_root, entries);
    snapshot.generate_proofs();
    snapshot
}

impl RepoServer {
    /// A snapshot of the metaprotocol `metaprotocol_id` in `db`: every entry
    /// whose key begins with the metaprotocol's prefix, the database's root,
    /// and a proof for each entry.
    pub fn create_snapshot<DB: MerkleizedDatabaseReader>(
        &self,
        metaprotocol_id: &str,
        db: &DB,
        block_hash: Vec<u8>,
        block_height: u32,
    ) -> (r: Result<MetaprotocolSnapshot, RepoError>)
        ensures
            r matches Ok(s) && {
                &&& s.metaprotocol_id@ == metaprotocol_id@
                &&& s.block_hash@ == block_hash@
                &&& s.block_height == block_height
                &&& s.merkle_proofs matches Some(ps) && proof_views(ps@) == generated_proofs(kv_views(s.state_entries@))
                &&& exists|root: crate::merkle::Hash| #![auto] call_ensures(DB::state_root, (db,), root) && root@ == s.state_root@
                &&& exists|prefix: &[u8], pairs: Vec<(Vec<u8>, Vec<u8>)>| #![auto]
                    prefix@ == metaprotocol_id.spec_bytes().push(47u8)
                    && call_ensures(DB::prefix_entries, (db, prefix), pairs)
                    && kv_views(s.state_entries@) == entry_views(pairs@)
            },
    {
        let state_root = db.state_root();
        assert(call_ensures(DB::state_root, (db,), state_root));
        let ghost root = state_root;
        let prefix = metaprotocol_prefix(metaprotocol_id);
        let p = prefix.as_slice();
        let pairs = db.prefix_entries(p);
        assert(call_ensures(DB::prefix_entries, (db, p), pairs));
        let ghost gp = pairs;
        let s = snapshot_from_entries(metaprotocol_id, block_hash, block_height, state_root, pairs);
        assert(kv_views(s.state_entries@) == entry_views(gp@));
        assert(root@ == s.state_root@);
        Ok(s)
    }
}

/// The entries of each chunk.
pub open spec fn chunk_runs(chunks: Seq<SnapshotChunk>) -> Seq<Seq<(Seq<u8>, Seq<u8>)>> {
    chunks.map_values(|c: SnapshotChunk| kv_views(c.state_entries@))
}

proof fn lemma_flatten_push<T>(runs: Seq<Seq<T>>, run: Seq<T>)
    ensures flatten_runs(runs.push(run)) == flatten_runs(runs) + run,
    decreases runs.len(),
{
    if runs.len() == 0 {
        assert(runs.push(run).drop_first() =~= Seq::<Seq<T>>::empty());
        assert(runs.push(run)[0] == run);
        assert(flatten_runs(runs.push(run).drop_first()) == Seq::<T>::empty());
        assert(flatten_runs(runs) == Seq::<T>::empty());
        assert(flatten_runs(runs.push(run)) =~= flatten_runs(runs) + run);
    } else {
        lemma_flatten_push(runs.drop_first(), run);
        assert(runs.push(run).drop_first() =~= runs.drop_first().push(run));
        assert(runs.push(run)[0] == runs[0]);
        assert(flatten_runs(runs.push(run)) == runs[0] + flatten_runs(runs.drop_first().push(run)));
        assert(flatten_runs(runs) == runs[0] + flatten_runs(runs.drop_first()));
        assert(flatten_runs(runs.push(run)) =~= flatten_runs(runs) + run);
    }
}

/// The snapshot that a metadata record and its downloaded chunks make: the
/// metadata's description, the chunks' entries in order, and no proofs.
pub fn assemble_snapshot(metadata: SnapshotMetadata, chunks: Vec<SnapshotChunk>) -> (s: MetaprotocolSnapshot)
    ensures
        s.metaprotocol_id@ == metadata.metaprotocol_id@,
        s.block_hash@ == metadata.block_hash@,
        s.block_height == metadata.block_height,
        s.state_root@ == metadata.state_root@,
        kv_views(s.state_entries@) == flatten_runs(chunk_runs(chunks@)),
        s.merkle_proofs is None,
{
    let mut entries: Vec<KeyValueEntry> = Vec::new();
    let mut i: usize = 0;
    proof {
        assert(chunk_runs(chunks@).subrange(0, 0) =~= Seq::<Seq<(Seq<u8>, Seq<u8>)>>::empty());
        assert(kv_views(entries@) =~= flatten_runs(chunk_runs(chunks@).subrange(0, 0)));
    }
    while i < chunks.len()
        invariant
            i <= chunks@.len(),
            kv_views(entries@) == flatten_runs(chunk_runs(chunks@).subrange(0, i as int)),
        decreases chunks@.len() - i,
    {
        let run = &chunks[i].state_entries;
        let ghost before = kv_views(entries@);
        let mut j: usize = 0;
        while j < run.len()
            invariant
                j <= run@.len(),
                kv_views(entries@) == before + kv_views(run@).subrange(0, j as int),
            decreases run@.len() - j,
        {
            let e = copy_entry(&run[j]);
            let ghost mid = kv_views(entries@);
            entries.push(e);
            assert(kv_views(entries@) =~= mid.push((run@[j as int].key@, run@[j as int].value@)));
            assert(kv_views(run@)[j as int] == (run@[j as int].key@, run@[j as int].value@));
            assert(kv_views(entries@) =~= before + kv_views(run@).subrange(0, j + 1));
            j = j + 1;
        }
        proof {
            assert(kv_views(run@).subrange(0, j as int) =~= kv_views(run@));
            let runs = chunk_runs(chunks@);
            assert(runs.subrange(0, i + 1) =~= runs.subrange(0, i as int).push(runs[i as int]));
            lemma_flatten_push(runs.subrange(0, i as int), runs[i as int]);
        }
        i = i + 1;
    }
    assert(chunk_runs(chunks@).subrange(0, i as int) =~= chunk_runs(chunks@));
    MetaprotocolSnapshot::new(metadata.metaprotocol_id, metadata.block_hash, metadata.block_height, metadata.state_root, entries)
}

/// Putting back together the chunks that a split of a snapshot gives yields
/// the snapshot's entries.
pub proof fn lemma_assemble_after_split(entries: Seq<(Seq<u8>, Seq<u8>)>, chunk_size: nat, chunks: Seq<SnapshotChunk>)
    requires
        chunk_size > 0,
        chunks.len() == chunks_of(entries, chunk_size).len(),
        forall|i: int| 0 <= i < chunks.len() ==> kv_views((#[trigger] chunks[i]).state_entries@) == chunks_of(entries, chunk_size)[i],
    ensures flatten_runs(chunk_runs(chunks)) == entries,
{
    assert(chunk_runs(chunks) =~= chunks_of(entries, chunk_size));
    lemma_chunks_flatten(entries, chunk_size);
}

/// Whether a snapshot with this many entries is checked by sampling rather
/// than entry by entry.
pub fn uses_sparse_verification(entry_count: usize) -> (r: bool)
    ensures r == (entry_count > 100_000),
{
    entry_count > 100_000
}

/// Whether every entry is shown, by the proof for its key in the tree of
/// all the entries, to hold its value under `root`.
pub open spec fn verifies_with_generated(es: Seq<(Seq<u8>, Seq<u8>)>, root: Seq<u8>) -> bool {
    forall|i: int| 0 <= i < es.len() ==> #[trigger] proof_verifies(es[i].0, es[i].1, generated_proofs(es)[i].1, root)
}

/// Checks every entry of a snapshot: with its proofs when it has them, else
/// with proofs generated from its entries.
pub fn verify_snapshot_proofs(snapshot: &MetaprotocolSnapshot) -> (r: bool)
    requires
        snapshot.merkle_proofs matches Some(ps) ==> ps@.len() >= snapshot.state_entries@.len(),
    ensures
        r == (match snapshot.merkle_proofs {
            Some(ps) => entries_verified(snapshot.state_entries@, ps@, snapshot.state_root@, snapshot.state_entries@.len() as int),
            None => verifies_with_generated(kv_views(snapshot.state_entries@), snapshot.state_root@),
        }),
{
    if snapshot.merkle_proofs.is_some() {
        return snapshot.verify();
    }
    let n = snapshot.state_entries.len();
    let entries = copy_entries(&snapshot.state_entries, 0, n);
    assert(kv_views(snapshot.state_entries@).subrange(0, n as int) =~= kv_views(snapshot.state_entries@));
    let mut copy = MetaprotocolSnapshot::new(
        snapshot.metaprotocol_id.clone(),
        copy_bytes(&snapshot.block_hash),
        snapshot.block_height,
        snapshot.state_root,
        entries,
    );
    copy.generate_proofs();
    let ghost es = kv_views(snapshot.state_entries@);
    let ghost ps = copy.merkle_proofs->Some_0;
    assert(proof_views(ps@) == generated_proofs(es));
    assert(ps@.len() == es.len()) by {
        assert(proof_views(ps@).len() == ps@.len());
    };
    let r = copy.verify();
    proof {
        let root = snapshot.state_root@;
        assert(copy.state_root@ == root);
        assert forall|i: int| 0 <= i < es.len() implies
            (#[trigger] proof_verifies(es[i].0, es[i].1, generated_proofs(es)[i].1, root))
                == proof_verifies(copy.state_entries@[i].key@, copy.state_entries@[i].value@, hash_views(ps@[i].proof@), copy.state_root@) by {
            assert(proof_views(ps@)[i] == (ps@[i].key@, hash_views(ps@[i].proof@)));
            assert(kv_views(copy.state_entries@)[i] == es[i]);
        };
        if r {
            assert forall|i: int| 0 <= i < es.len() implies #[trigger] proof_verifies(es[i].0, es[i].1, generated_proofs(es)[i].1, root) by {
                assert(proof_verifies(copy.state_entries@[i].key@, copy.state_entries@[i].value@, hash_views(ps@[i].proof@), copy.state_root@));
            };
        } else {
            let i = choose|i: int| 0 <= i < es.len() && !#[trigger] proof_verifies(copy.state_entries@[i].key@,
                copy.state_entries@[i].value@, hash_views(ps@[i].proof@), copy.state_root@);
            assert(!proof_verifies(es[i].0, es[i].1, generated_proofs(es)[i].1, root));
        }
    }
    r
}

/// The operations that store each entry, in order.
pub open spec fn insert_ops(es: Seq<(Seq<u8>, Seq<u8>)>) -> Seq<(Seq<u8>, Option<Seq<u8>>)> {
    es.map_values(|e: (Seq<u8>, Seq<u8>)| (e.0, Some(e.1)))
}

/// Changes to a merkleized database, applied together.
pub trait MerkleizedBatch {
    /// The changes recorded so far: a key with its new value, or `None` for
    /// a removal.
    spec fn ops(&self) -> Seq<(Seq<u8>, Option<Seq<u8>>)>;

    /// Records that `key` gets `value`.
    fn insert(&mut self, key: &[u8], value: &[u8])
        ensures final(self).ops() == old(self).ops().push((key@, Some(value@)));

    /// Records that `key` is removed.
    fn remove(&mut self, key: &[u8])
        ensures final(self).ops() == old(self).ops().push((key@, None));
}

/// A database that keeps a Merkle tree of its contents.
pub trait MerkleizedDatabase {
    /// What a failed write reports.
    type Error;

    /// The batches it applies.
    type Batch: MerkleizedBatch;

    /// The root of the tree.
    spec fn root_view(&self) -> Seq<u8>;

    /// The root of the tree after applying `ops` in order.
    spec fn root_after(&self, ops: Seq<(Seq<u8>, Option<Seq<u8>>)>) -> Seq<u8>;

    /// The stored contents.
    spec fn data_view(&self) -> Map<Seq<u8>, Seq<u8>>;

    /// The stored contents after applying `ops` in order.
    spec fn data_after(&self, ops: Seq<(Seq<u8>, Option<Seq<u8>>)>) -> Map<Seq<u8>, Seq<u8>>;

    /// An empty batch.
    fn create_batch(&self) -> (b: Self::Batch)
        ensures b.ops() == Seq::<(Seq<u8>, Option<Seq<u8>>)>::empty();

    /// Applies a batch: the tree takes all its changes; the contents take
    /// them all when the write succeeds.
    fn write_batch(&mut self, batch: Self::Batch) -> (r: Result<(), Self::Error>)
        ensures
            final(self).root_view() == old(self).root_after(batch.ops()),
            r is Ok ==> final(self).data_view() == old(self).data_after(batch.ops());

    /// The root of the tree.
    fn state_root(&self) -> (r: crate::merkle::Hash)
        ensures r@ == self.root_view();
}

impl MerkleizedBatch for MerkleizedRocksDBBatch {
    open spec fn ops(&self) -> Seq<(Seq<u8>, Option<Seq<u8>>)> {
        pending_views(self.operations@)
    }

    fn insert(&mut self, key: &[u8], value: &[u8]) {
        MerkleizedRocksDBBatch::insert(self, key, value);
    }

    fn remove(&mut self, key: &[u8]) {
        MerkleizedRocksDBBatch::remove(self, key);
    }
}

impl<S: KeyValueStoreLike> MerkleizedDatabase for MerkleizedRocksDBRuntimeAdapter<S> {
    type Error = S::Error;

    type Batch = MerkleizedRocksDBBatch;

    open spec fn root_view(&self) -> Seq<u8> {
        self.tree_root()
    }

    open spec fn root_after(&self, ops: Seq<(Seq<u8>, Option<Seq<u8>>)>) -> Seq<u8> {
        tree_apply(self.tree_cache(), self.tree_root(), ops).1
    }

    open spec fn data_view(&self) -> Map<Seq<u8>, Seq<u8>> {
        self.data_kv()
    }

    open spec fn data_after(&self, ops: Seq<(Seq<u8>, Option<Seq<u8>>)>) -> Map<Seq<u8>, Seq<u8>> {
        store_apply::<S>(self.data_kv(), ops)
    }

    fn create_batch(&self) -> (b: MerkleizedRocksDBBatch) {
        MerkleizedRocksDBBatch::new()
    }

    fn write_batch(&mut self, batch: MerkleizedRocksDBBatch) -> (r: Result<(), S::Error>) {
        self.write(batch)
    }

    fn state_root(&self) -> (r: crate::merkle::Hash) {
        MerkleizedRocksDBRuntimeAdapter::state_root(self)
    }
}

/// Records the storing of every entry of the snapshot, in order.
pub fn snapshot_batch<B: MerkleizedBatch>(snapshot: &MetaprotocolSnapshot, batch: &mut B)
    ensures final(batch).ops() == old(batch).ops() + insert_ops(kv_views(snapshot.state_entries@)),
{
    let ghost start = batch.ops();
    let ghost es = kv_views(snapshot.state_entries@);
    let mut i: usize = 0;
    while i < snapshot.state_entries.len()
        invariant
            i <= snapshot.state_entries@.len(),
            es == kv_views(snapshot.state_entries@),
            batch.ops() == start + insert_ops(es.subrange(0, i as int)),
        decreases snapshot.state_entries@.len() - i,
    {
        batch.insert(&snapshot.state_entries[i].key, &snapshot.state_entries[i].value);
        assert(insert_ops(es.subrange(0, i + 1)) =~= insert_ops(es.subrange(0, i as int)).push((es[i as int].0, Some(es[i as int].1))));
        assert(batch.ops() =~= start + insert_ops(es.subrange(0, i + 1)));
        i = i + 1;
    }
    assert(es.subrange(0, i as int) =~= es);
}

/// Stores every entry of the snapshot in the database, in one batch.
pub fn import_snapshot<DB: MerkleizedDatabase>(snapshot: &MetaprotocolSnapshot, db: &mut DB) -> (r: Result<(), DB::Error>)
    ensures
        final(db).root_view() == old(db).root_after(insert_ops(kv_views(snapshot.state_entries@))),
        r is Ok ==> final(db).data_view() == old(db).data_after(insert_ops(kv_views(snapshot.state_entries@))),
{
    let mut batch = db.create_batch();
    snapshot_batch(snapshot, &mut batch);
    assert(batch.ops() =~= insert_ops(kv_views(snapshot.state_entries@)));
    db.write_batch(batch)
}

/// Storing the entries one after the other in an empty tree gives the
/// tree that the snapshot's proofs are generated from.
pub proof fn lemma_import_root(es: Seq<(Seq<u8>, Seq<u8>)>)
    ensures tree_apply(Map::<Seq<u8>, NodeModel>::empty(), zero_hash(), insert_ops(es)) == tree_of(es),
    decreases es.len(),
{
    if es.len() > 0 {
        lemma_import_root(es.drop_last());
        assert(insert_ops(es).drop_last() =~= insert_ops(es.drop_last()));
    }
}

/// Whether a database whose entries under a metaprotocol's prefix are
/// `entries` still needs a fast sync: it does unless it holds more than ten.
pub fn sync_needed(entries: &[(Vec<u8>, Vec<u8>)]) -> (r: bool)
    ensures r == (entries@.len() <= 10),
{
    entries.len() <= 10
}

/// Whether the metaprotocol `metaprotocol_id` still needs a fast sync into
/// `db`: whether `db` holds ten or fewer entries under its prefix.
pub fn needs_sync<DB: MerkleizedDatabaseReader>(db: &DB, metaprotocol_id: &str) -> (r: bool)
    ensures
        exists|prefix: &[u8], entries: Vec<(Vec<u8>, Vec<u8>)>| #![auto]
            prefix@ == metaprotocol_id.spec_bytes().push(47u8)
            && call_ensures(DB::prefix_entries, (db, prefix), entries)
            && r == (entries@.len() <= 10),
{
    let prefix = metaprotocol_prefix(metaprotocol_id);
    let p = prefix.as_slice();
    let entries = db.prefix_entries(p);
    let r = sync_needed(&entries);
    assert(call_ensures(DB::prefix_entries, (db, p), entries));
    r
}

} // verus!
