use metashrew::merkle::HASH_SIZE;
use metashrew::merkleized::{MerkleizedRocksDBBatch, MerkleizedRocksDBRuntimeAdapter};
use metashrew::store::{KeyValueStoreLike, MemStore};

fn adapter() -> MerkleizedRocksDBRuntimeAdapter<MemStore> {
    MerkleizedRocksDBRuntimeAdapter::new(MemStore::new(), MemStore::new()).unwrap()
}

#[test]
fn test_merkleized_adapter_basic() {
    let mut adapter = adapter();

    assert_eq!(adapter.state_root(), [0; HASH_SIZE]);

    adapter.put(b"test_key", b"test_value").unwrap();

    assert_ne!(adapter.state_root(), [0; HASH_SIZE]);

    let value = adapter.get(b"test_key").unwrap().unwrap();
    assert_eq!(value, b"test_value");

    adapter.delete(b"test_key").unwrap();

    assert!(adapter.get(b"test_key").unwrap().is_none());
}

#[test]
fn test_merkleized_adapter_batch() {
    let mut adapter = adapter();

    let mut batch = MerkleizedRocksDBBatch::new();

    batch.insert(b"key1", b"value1");
    batch.insert(b"key2", b"value2");
    batch.insert(b"key3", b"value3");

    adapter.write(batch).unwrap();

    assert_eq!(adapter.get(b"key1").unwrap().unwrap(), b"value1");
    assert_eq!(adapter.get(b"key2").unwrap().unwrap(), b"value2");
    assert_eq!(adapter.get(b"key3").unwrap().unwrap(), b"value3");

    let mut batch = MerkleizedRocksDBBatch::new();
    batch.remove(b"key2");

    adapter.write(batch).unwrap();

    assert!(adapter.get(b"key2").unwrap().is_none());
}

#[test]
fn delete_after_put_restores_empty_root() {
    let mut adapter = adapter();
    adapter.put(b"only", b"value").unwrap();
    adapter.delete(b"only").unwrap();
    assert_eq!(adapter.state_root(), [0; HASH_SIZE]);
}

#[test]
fn root_is_reloaded_from_tree_store() {
    let mut tree_store = MemStore::new();
    tree_store.put(b"merkle_root", &[9u8; 64]).unwrap();
    let a = MerkleizedRocksDBRuntimeAdapter::new(MemStore::new(), tree_store).unwrap();
    assert_eq!(a.state_root(), [9u8; 64]);
}
