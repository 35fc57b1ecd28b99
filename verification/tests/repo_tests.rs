use metashrew::merkle::HASH_SIZE;
use metashrew::merkleized::{MerkleizedRocksDBBatch, MerkleizedRocksDBRuntimeAdapter};
use metashrew::repo::{
    assemble_snapshot, import_snapshot, metaprotocol_prefix, needs_sync, sync_needed, snapshot_from_entries, uses_sparse_verification,
    verify_snapshot_proofs, ClientConfig, MerkleizedBatch, MerkleizedDatabaseReader, MetaprotocolInfo, RepoConfig,
    RepoServer,
};
use metashrew::repo_snapshot::{KeyValueEntry, MetaprotocolSnapshot};
use metashrew::store::MemStore;

fn info(id: &str, latest_block: u32) -> MetaprotocolInfo {
    MetaprotocolInfo {
        id: id.to_string(),
        name: "Test Protocol".to_string(),
        description: "A test protocol".to_string(),
        latest_block,
        latest_snapshot: 1622505600,
    }
}

fn entry(k: &[u8], v: &[u8]) -> KeyValueEntry {
    KeyValueEntry { key: k.to_vec(), value: v.to_vec() }
}

struct FixedDb {
    pairs: Vec<(Vec<u8>, Vec<u8>)>,
}

impl MerkleizedDatabaseReader for FixedDb {
    fn state_root(&self) -> [u8; HASH_SIZE] {
        [7; HASH_SIZE]
    }

    fn prefix_entries(&self, prefix: &[u8]) -> Vec<(Vec<u8>, Vec<u8>)> {
        self.pairs.iter().filter(|(k, _)| k.starts_with(prefix)).cloned().collect()
    }
}

#[test]
fn defaults_of_the_configurations() {
    let repo = RepoConfig::default();
    assert_eq!(repo.port, 8090);
    assert_eq!(repo.host, "0.0.0.0");
    assert_eq!(repo.snapshot_dir, std::path::PathBuf::from("./snapshots"));
    let client = ClientConfig::default();
    assert_eq!(client.repo_url, "https://repo.sandshrew.io");
    assert_eq!(client.timeout_secs, 60);
}

#[test]
fn registering_replaces_by_identifier() {
    let mut server = RepoServer::new(RepoConfig::default());
    assert!(server.metaprotocol_ids().is_empty());
    server.register_metaprotocol(info("test", 100));
    server.register_metaprotocol(info("other", 5));
    server.register_metaprotocol(info("test", 200));
    let mut ids = server.metaprotocol_ids();
    ids.sort();
    assert_eq!(ids, vec!["other".to_string(), "test".to_string()]);
    assert_eq!(server.latest_block_of("test"), Some(200));
    assert_eq!(server.latest_block_of("missing"), None);
}

#[test]
fn snapshots_take_the_prefixed_entries() {
    assert_eq!(metaprotocol_prefix("alkanes"), b"alkanes/".to_vec());
    let db = FixedDb {
        pairs: vec![(b"test/a".to_vec(), b"1".to_vec()), (b"other/b".to_vec(), b"2".to_vec()), (b"test/c".to_vec(), b"3".to_vec())],
    };
    let server = RepoServer::new(RepoConfig::default());
    let snap = server.create_snapshot("test", &db, vec![9, 9], 42).unwrap();
    assert_eq!(snap.metaprotocol_id, "test");
    assert_eq!(snap.block_height, 42);
    assert_eq!(snap.state_root, [7; HASH_SIZE]);
    assert_eq!(snap.state_entries.len(), 2);
    assert_eq!(snap.state_entries[1].key, b"test/c".to_vec());
    assert_eq!(snap.merkle_proofs.as_ref().unwrap().len(), 2);
}

#[test]
fn assembling_the_chunks_of_a_split_gives_the_entries_back() {
    let es = vec![entry(b"a", b"1"), entry(b"b", b"2"), entry(b"c", b"3"), entry(b"d", b"4"), entry(b"e", b"5")];
    let snap = MetaprotocolSnapshot::new("test".to_string(), vec![1, 2], 7, [3; HASH_SIZE], es.clone());
    let (meta, chunks) = snap.split_into_chunks(2);
    let back = assemble_snapshot(meta, chunks);
    assert_eq!(back.metaprotocol_id, "test");
    assert_eq!(back.block_height, 7);
    assert_eq!(back.block_hash, vec![1, 2]);
    assert!(back.merkle_proofs.is_none());
    let keys: Vec<Vec<u8>> = back.state_entries.iter().map(|e| e.key.clone()).collect();
    assert_eq!(keys, vec![b"a".to_vec(), b"b".to_vec(), b"c".to_vec(), b"d".to_vec(), b"e".to_vec()]);
}

#[test]
fn snapshots_verify_against_the_root_of_their_entries() {
    assert!(uses_sparse_verification(100_001));
    assert!(!uses_sparse_verification(100_000));
    let pairs = vec![(b"a".to_vec(), b"1".to_vec()), (b"b".to_vec(), b"2".to_vec())];
    let mut db = MerkleizedRocksDBRuntimeAdapter::new(MemStore::new(), MemStore::new()).unwrap();
    let mut batch = MerkleizedRocksDBBatch::new();
    MerkleizedBatch::insert(&mut batch, b"a", b"1");
    MerkleizedBatch::insert(&mut batch, b"b", b"2");
    db.write(batch).unwrap();
    let root = db.state_root();
    let with_proofs = snapshot_from_entries("t", vec![], 1, root, pairs.clone());
    assert!(verify_snapshot_proofs(&with_proofs));
    let mut without = with_proofs.clone();
    without.merkle_proofs = None;
    assert!(verify_snapshot_proofs(&without));
    let wrong = snapshot_from_entries("t", vec![], 1, [0; HASH_SIZE], pairs);
    assert!(!verify_snapshot_proofs(&wrong));
}

#[test]
fn importing_a_snapshot_reproduces_its_root() {
    let pairs = vec![(b"x".to_vec(), b"10".to_vec()), (b"y".to_vec(), b"20".to_vec())];
    let mut source = MerkleizedRocksDBRuntimeAdapter::new(MemStore::new(), MemStore::new()).unwrap();
    source.put(b"x", b"10").unwrap();
    source.put(b"y", b"20").unwrap();
    let snap = snapshot_from_entries("t", vec![], 3, source.state_root(), pairs);
    let mut target = MerkleizedRocksDBRuntimeAdapter::new(MemStore::new(), MemStore::new()).unwrap();
    import_snapshot(&snap, &mut target).unwrap();
    assert_eq!(target.state_root(), source.state_root());
    assert_eq!(target.get(b"y").unwrap().unwrap(), b"20".to_vec());
}

#[test]
fn fast_sync_is_needed_for_nearly_empty_databases() {
    let few: Vec<(Vec<u8>, Vec<u8>)> = (0u8..10).map(|i| (vec![b't', b'/', i], vec![i])).collect();
    assert!(sync_needed(&few));
    let db = FixedDb { pairs: (0u8..11).map(|i| (vec![b't', b'/', i], vec![i])).collect() };
    assert!(!needs_sync(&db, "t"));
    assert!(needs_sync(&db, "u"));
}
