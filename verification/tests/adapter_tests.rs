use metashrew::adapter::{get_bucket_size, make_label, query_height_from, tip_height_entry, to_labeled_key, MemoryPool};

#[test]
fn labels() {
    let label = make_label(b"net");
    assert_eq!(label, b"net://".to_vec());
    assert_eq!(to_labeled_key(&Some(label), b"k"), b"net://k".to_vec());
    assert_eq!(to_labeled_key(&None, b"k"), b"k".to_vec());
}

#[test]
fn tip_height() {
    assert_eq!(query_height_from(None, 5), 5);
    assert_eq!(query_height_from(Some(vec![]), 5), 5);
    assert_eq!(query_height_from(Some(vec![1, 1, 0, 0]), 5), 257);
    let (k, v) = tip_height_entry(&None, 9);
    assert_eq!(k, b"/__INTERNAL/tip-height".to_vec());
    assert_eq!(v, vec![10, 0, 0, 0]);
}

#[test]
fn bucket_sizes() {
    assert_eq!(get_bucket_size(0), 32);
    assert_eq!(get_bucket_size(32), 32);
    assert_eq!(get_bucket_size(33), 64);
    assert_eq!(get_bucket_size(2048), 2048);
    assert_eq!(get_bucket_size(2049), 4096);
    assert_eq!(get_bucket_size(5000), 8192);
}

#[test]
fn pool_reuses_buffers() {
    let mut pool = MemoryPool::new();
    let v = pool.get(10);
    assert!(v.is_empty());
    let mut w = Vec::with_capacity(32);
    w.push(1u8);
    pool.put(w);
    let again = pool.get(20);
    assert!(again.is_empty());
}
