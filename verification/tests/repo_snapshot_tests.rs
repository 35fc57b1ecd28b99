use metashrew::repo_snapshot::{encode_entries, KeyValueEntry, MetaprotocolSnapshot};
use metashrew::merkle::SparseMerkleTree;

fn entry(k: &[u8], v: &[u8]) -> KeyValueEntry {
    KeyValueEntry { key: k.to_vec(), value: v.to_vec() }
}

#[test]
fn entries_are_framed_with_lengths() {
    let es = vec![entry(&[1, 2, 3], &[4, 5, 6])];
    let data = encode_entries(&es);
    let mut expected = vec![1, 0, 0, 0, 0, 0, 0, 0];
    expected.extend_from_slice(&[3, 0, 0, 0, 0, 0, 0, 0, 1, 2, 3]);
    expected.extend_from_slice(&[3, 0, 0, 0, 0, 0, 0, 0, 4, 5, 6]);
    assert_eq!(data, expected);
    assert_eq!(encode_entries(&[]), vec![0u8; 8]);
}

#[test]
fn split_into_chunks_covers_all_entries() {
    let es = vec![entry(b"a", b"1"), entry(b"b", b"2"), entry(b"c", b"3"), entry(b"d", b"4"), entry(b"e", b"5")];
    let snap = MetaprotocolSnapshot::new("test".to_string(), vec![1, 2, 3, 4], 100, [0; 64], es);
    let (meta, chunks) = snap.split_into_chunks(2);
    assert_eq!(chunks.len(), 3);
    assert_eq!(meta.total_chunks, 3);
    assert_eq!(chunks[0].chunk_index, 0);
    assert_eq!(chunks[2].chunk_index, 2);
    assert_eq!(chunks[0].state_entries.len(), 2);
    assert_eq!(chunks[2].state_entries.len(), 1);
    assert_eq!(chunks[2].state_entries[0].key, b"e".to_vec());
    assert_eq!(meta.metaprotocol_id, "test");
    assert_eq!(meta.block_height, 100);
    assert_eq!(meta.chunk_hashes.len(), 3);
    assert!(meta.chunk_hashes.iter().all(|h| h.len() == 64));
    // 8 + 2 * (8 + 1 + 8 + 1) for the full chunks, 8 + 18 for the last.
    assert_eq!(meta.total_size_bytes, 44 + 44 + 26);
}

#[test]
fn chunk_hash_is_blake2b_of_serialized_chunk() {
    let es = vec![entry(&[1, 2, 3], &[4, 5, 6])];
    let snap = MetaprotocolSnapshot::new("p".to_string(), vec![], 1, [0; 64], es);
    let (meta, _) = snap.split_into_chunks(10);
    // BLAKE2b-512 of the 30-byte serialized chunk, computed independently.
    let expected = "0869e842b280c875aa43033c9b9dcee7f70e5e34d3c3407d80ede33d7f9a79e534f43b370e07daaa71ec7577aa0a0ba5aba6e073793e0664296825da317040d0";
    let got: String = meta.chunk_hashes[0].iter().map(|b| format!("{:02x}", b)).collect();
    assert_eq!(got, expected);
}

#[test]
fn generated_proofs_verify_against_tree_root() {
    let es = vec![entry(b"key1", b"value1"), entry(b"key2", b"value2")];
    let mut tree = SparseMerkleTree::new();
    tree.update(b"key1", b"value1");
    tree.update(b"key2", b"value2");
    let mut snap = MetaprotocolSnapshot::new("p".to_string(), vec![], 5, tree.root(), es);
    assert!(!snap.verify());
    snap.generate_proofs();
    assert!(snap.verify());
    assert!(snap.verify_entries_at(&[1]));
    assert!(!snap.verify_entries_at(&[]));
    snap.state_root = [1; 64];
    assert!(!snap.verify());
}
