use metashrew::interval_snapshot::{
    add_interval, apply_compressed_diff, apply_diff, encode_diff, parse_diff, store_interval_root, IntervalError, RepoIndex, SnapshotConfig,
    SnapshotManager, SnapshotMetadata,
};
use metashrew::store::{KeyValueStoreLike, MemStore};
use std::path::PathBuf;

fn config(enabled: bool, interval: u32) -> SnapshotConfig {
    SnapshotConfig { interval, directory: PathBuf::from("snapshots"), enabled }
}

#[test]
fn snapshot_due_on_interval_multiples() {
    let m = SnapshotManager::new(config(true, 10));
    assert!(!m.should_create_snapshot(0));
    assert!(!m.should_create_snapshot(5));
    assert!(m.should_create_snapshot(20));
    let off = SnapshotManager::new(config(false, 10));
    assert!(!off.should_create_snapshot(20));
}

#[test]
fn key_changes_tracked_only_when_enabled() {
    let mut m = SnapshotManager::new(config(true, 10));
    m.track_key_change(b"k".to_vec(), b"v1".to_vec());
    m.track_key_change(b"k".to_vec(), b"v2".to_vec());
    assert_eq!(m.diff_data(), vec![1, 0, 0, 0, b'k', 2, 0, 0, 0, b'v', b'2']);
    m.finish_interval(10);
    assert_eq!(m.last_snapshot_height, 10);
    assert!(m.diff_data().is_empty());
    let mut off = SnapshotManager::new(config(false, 10));
    off.track_key_change(b"k".to_vec(), b"v".to_vec());
    assert!(off.diff_data().is_empty());
}

#[test]
fn diff_roundtrip_and_truncation() {
    let pairs = vec![(b"a".to_vec(), b"1".to_vec()), (b"bb".to_vec(), vec![])];
    let data = encode_diff(&pairs);
    assert_eq!(parse_diff(&data), pairs);
    // A truncated last record is dropped.
    assert_eq!(parse_diff(&data[..data.len() - 2]), vec![(b"a".to_vec(), b"1".to_vec())]);
    assert!(parse_diff(&[1, 0]).is_empty());
}

#[test]
fn applying_an_interval() {
    let mut db = MemStore::new();
    let data = encode_diff(&vec![(b"x".to_vec(), b"y".to_vec())]);
    apply_diff(&mut db, &data).unwrap();
    assert_eq!(db.get(b"x").unwrap(), Some(b"y".to_vec()));
    assert_eq!(store_interval_root(&mut db, 12, b"0a0b").unwrap(), 12);
    assert_eq!(db.get(b"smt:root::12").unwrap(), Some(vec![10, 11]));
    assert_eq!(db.get(b"/__INTERNAL/tip-height").unwrap(), Some(vec![12, 0, 0, 0]));
    assert!(matches!(store_interval_root(&mut db, 13, b"zz"), Err(IntervalError::InvalidRoot)));
}

#[test]
fn tracking_db_changes_reads_update_lists() {
    let mut db = MemStore::new();
    db.put(b"5FFFFFFFF", &[2, 0, 0, 0]).unwrap();
    db.put(b"50", b"key-a").unwrap();
    db.put(b"51", b"key-b").unwrap();
    db.put(b"key-a", b"value-a").unwrap();
    let mut m = SnapshotManager::new(config(true, 10));
    m.track_db_changes(&mut db, 4, 6).unwrap();
    // key-b has no value and is not tracked.
    assert_eq!(m.diff_data(), encode_diff(&vec![(b"key-a".to_vec(), b"value-a".to_vec())]));
}

#[test]
fn index_gains_interval() {
    let mut index = RepoIndex { intervals: vec![], latest_height: 0, created_at: 0 };
    let meta = SnapshotMetadata {
        start_height: 0,
        end_height: 10,
        state_root: "00".to_string(),
        diff_file: "intervals/0-10/diff.bin.zst".to_string(),
        wasm_file: "wasm/x.wasm".to_string(),
        wasm_hash: "abcdefgh".to_string(),
        created_at: 5,
    };
    add_interval(&mut index, meta, 99);
    assert_eq!(index.intervals.len(), 1);
    assert_eq!(index.latest_height, 10);
    assert_eq!(index.created_at, 99);
}

#[test]
fn compressed_diffs_apply_after_decompression() {
    let mut m = SnapshotManager::new(config(true, 10));
    m.track_key_change(b"a".to_vec(), b"1".to_vec());
    m.track_key_change(b"b".to_vec(), b"22".to_vec());
    let compressed = m.compressed_diff();
    assert_eq!(&compressed[..4], &[0x28, 0xb5, 0x2f, 0xfd]);
    assert_eq!(zstd::decode_all(&compressed[..]).unwrap(), m.diff_data());
    let mut db = MemStore::new();
    apply_compressed_diff(&mut db, &compressed).unwrap();
    assert_eq!(db.get(b"a").unwrap(), Some(b"1".to_vec()));
    assert_eq!(db.get(b"b").unwrap(), Some(b"22".to_vec()));
    let mut untouched = MemStore::new();
    assert!(matches!(apply_compressed_diff(&mut untouched, b"not zstd"), Err(IntervalError::InvalidCompression)));
    assert_eq!(untouched.len(), 0);
}
