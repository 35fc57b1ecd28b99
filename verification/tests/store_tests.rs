use metashrew::byte_map::{ByteMap, ByteSet};
use metashrew::store::{BatchLike, KeyValueStoreLike, MemBatch, MemStore, PreviewDBWrapper};

#[test]
fn mem_store_operations() {
    let mut s = MemStore::new();
    let mut b = <MemBatch as BatchLike>::default();
    b.put(b"a", b"1");
    b.put(b"a", b"2");
    s.write(b).unwrap();
    assert_eq!(s.get(b"a").unwrap(), Some(b"2".to_vec()));
    s.delete(b"a").unwrap();
    assert_eq!(s.get(b"a").unwrap(), None);
    s.put(b"x", b"y").unwrap();
    assert_eq!(s.len(), 1);
    assert_eq!(s.entries(), vec![(b"x".to_vec(), b"y".to_vec())]);
}

#[test]
fn preview_reads_through_and_keeps_puts() {
    let mut under = MemStore::new();
    under.put(b"a", b"1").unwrap();
    under.put(b"b", b"2").unwrap();
    let mut p = PreviewDBWrapper::new(under);
    p.put(b"b", b"3").unwrap();
    assert_eq!(p.get(b"a").unwrap(), Some(b"1".to_vec()));
    assert_eq!(p.get(b"b").unwrap(), Some(b"3".to_vec()));
    // Batches and deletes leave a preview unchanged.
    let mut batch = <MemBatch as BatchLike>::default();
    batch.put(b"c", b"4");
    p.write(batch).unwrap();
    p.delete(b"a").unwrap();
    assert_eq!(p.get(b"c").unwrap(), None);
    assert_eq!(p.get(b"a").unwrap(), Some(b"1".to_vec()));
}

#[test]
fn byte_map_and_set() {
    let mut m = ByteMap::new();
    m.insert(b"k".to_vec(), b"v".to_vec());
    m.insert(b"k".to_vec(), b"w".to_vec());
    assert_eq!(m.len(), 1);
    assert_eq!(m.get(b"k"), Some(&b"w".to_vec()));
    assert_eq!(m.remove(b"k"), Some(b"w".to_vec()));
    assert!(!m.contains_key(b"k"));
    let mut s = ByteSet::new();
    s.insert(b"a".to_vec());
    let mut t = ByteSet::new();
    t.insert(b"a".to_vec());
    t.insert(b"b".to_vec());
    s.extend(&t);
    assert_eq!(s.len(), 2);
    s.remove(b"a");
    assert_eq!(s.to_vec(), vec![b"b".to_vec()]);
}
