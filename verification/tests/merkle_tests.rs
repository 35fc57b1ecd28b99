use metashrew::merkle::{SparseMerkleTree, HASH_SIZE};
use metashrew::store::{BatchLike, KeyValueStoreLike, MemBatch, MemStore};

#[test]
fn test_empty_tree() {
    let tree = SparseMerkleTree::new();
    assert_eq!(tree.root(), [0; HASH_SIZE]);
}

#[test]
fn test_insert_and_delete() {
    let mut tree = SparseMerkleTree::new();

    let key = b"test_key";
    let value = b"test_value";
    tree.update(key, value);

    let root_after_insert = tree.root();
    assert_ne!(root_after_insert, [0; HASH_SIZE]);

    tree.delete(key);

    assert_eq!(tree.root(), [0; HASH_SIZE]);
}

#[test]
fn test_proof_verification() {
    let mut tree = SparseMerkleTree::new();

    let key1 = b"key1";
    let value1 = b"value1";
    tree.update(key1, value1);

    let key2 = b"key2";
    let value2 = b"value2";
    tree.update(key2, value2);

    let key3 = b"key3";
    let value3 = b"value3";
    tree.update(key3, value3);

    let proof = tree.generate_proof(key2);
    let root = tree.root();

    assert!(SparseMerkleTree::verify_proof(key2, value2, &proof, &root));
    assert!(!SparseMerkleTree::verify_proof(key2, b"wrong_value", &proof, &root));
    assert!(!SparseMerkleTree::verify_proof(b"wrong_key", value2, &proof, &root));
}

#[test]
fn proof_has_one_sibling_per_level() {
    let mut tree = SparseMerkleTree::new();
    tree.update(b"a", b"1");
    let proof = tree.generate_proof(b"a");
    assert_eq!(proof.len(), 256);
    // With a single key every sibling is the empty subtree.
    assert!(proof.iter().all(|h| *h == [0u8; HASH_SIZE]));
}

#[test]
fn short_proof_is_refused() {
    let mut tree = SparseMerkleTree::new();
    tree.update(b"a", b"1");
    let mut proof = tree.generate_proof(b"a");
    let root = tree.root();
    proof.pop();
    assert!(!SparseMerkleTree::verify_proof(b"a", b"1", &proof, &root));
}

#[test]
fn proof_for_absent_key_is_empty_in_empty_tree() {
    let tree = SparseMerkleTree::new();
    assert!(tree.generate_proof(b"nothing").is_empty());
}

#[test]
fn delete_of_one_key_keeps_the_other() {
    let mut tree = SparseMerkleTree::new();
    tree.update(b"k1", b"v1");
    let root_one = tree.root();
    tree.update(b"k2", b"v2");
    tree.delete(b"k2");
    // The internal nodes on the other key's path are rebuilt unchanged.
    assert_eq!(tree.root(), root_one);
    let proof = tree.generate_proof(b"k1");
    assert!(SparseMerkleTree::verify_proof(b"k1", b"v1", &proof, &tree.root()));
}

#[test]
fn update_is_deterministic() {
    let mut a = SparseMerkleTree::new();
    let mut b = SparseMerkleTree::new();
    a.update(b"x", b"y");
    b.update(b"x", b"y");
    assert_eq!(a.root(), b.root());
    b.update(b"x", b"z");
    assert_ne!(a.root(), b.root());
}

#[test]
fn stored_root_loading() {
    let root = [7u8; 64];
    let t = SparseMerkleTree::from_stored_root(Some(root.to_vec()));
    assert_eq!(t.root(), root);
    let t = SparseMerkleTree::from_stored_root(Some(vec![1, 2, 3]));
    assert_eq!(t.root(), [0u8; 64]);
    let t = SparseMerkleTree::from_stored_root(None);
    assert_eq!(t.root(), [0u8; 64]);
    let t = SparseMerkleTree::with_root(root);
    assert_eq!(t.root(), root);
}

#[test]
fn write_updates_puts_root_then_nodes() {
    let mut tree = SparseMerkleTree::new();
    tree.update(b"k", b"v");
    let mut batch = <MemBatch as BatchLike>::default();
    tree.write_updates_to_batch(&mut batch);
    let mut store = MemStore::new();
    store.write(batch).unwrap();
    // One leaf and 256 internal nodes, plus the root record.
    assert_eq!(store.len(), 258);
    let root = store.get(b"merkle_root").unwrap().unwrap();
    assert_eq!(root, tree.root().to_vec());
    // The root node record is the concatenation of its children.
    let node = store.get(&tree.root()).unwrap().unwrap();
    assert_eq!(node.len(), 128);
}
