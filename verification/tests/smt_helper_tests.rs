use metashrew::smt_helper::SMTHelper;
use metashrew::store::{KeyValueStoreLike, MemStore};

fn hex(bytes: &[u8]) -> String {
    bytes.iter().map(|b| format!("{:02x}", b)).collect()
}

#[test]
fn bst_put_writes_value_and_height_index() {
    let mut h = SMTHelper::new(MemStore::new());
    h.bst_put(b"k", b"v", 7).unwrap();
    let mut db = h.into_inner();
    assert_eq!(db.get(b"bst:k").unwrap(), Some(b"v".to_vec()));
    assert_eq!(db.get(b"bst:height:7:6b").unwrap(), Some(vec![]));
    assert_eq!(db.len(), 2);
}

#[test]
fn bst_get_at_height_sees_value_from_earlier_height() {
    let mut h = SMTHelper::new(MemStore::new());
    h.bst_put(b"k", b"v", 1).unwrap();
    assert_eq!(h.bst_get_at_height(b"k", 1).unwrap(), Some(b"v".to_vec()));
    assert_eq!(h.bst_get_at_height(b"k", 3).unwrap(), Some(b"v".to_vec()));
    assert_eq!(h.bst_get_at_height(b"k", 0).unwrap(), None);
    assert_eq!(h.bst_get_at_height(b"other", 3).unwrap(), None);
}

#[test]
fn root_lookup_prefers_exact_key_then_searches() {
    let mut db = MemStore::new();
    db.put(b"smt:root:::1", &[1u8; 32]).unwrap();
    db.put(b"smt:root:::2", &[2u8; 32]).unwrap();
    db.put(b"smt:root::::9", &[9u8; 32]).unwrap();
    let mut h = SMTHelper::new(db);
    assert_eq!(h.get_smt_root_at_height(2).unwrap(), [2u8; 32]);
    assert_eq!(h.get_smt_root_at_height(9).unwrap(), [9u8; 32]);
    // Heights 1 and 2 are marked, so the search from 5 finds 2.
    assert_eq!(h.get_smt_root_at_height(5).unwrap(), [2u8; 32]);
    assert_eq!(h.get_smt_root_at_height(0).unwrap(), [0u8; 32]);
}

#[test]
fn root_of_wrong_length_is_ignored() {
    let mut db = MemStore::new();
    db.put(b"smt:root:::1", &[1u8; 5]).unwrap();
    let mut h = SMTHelper::new(db);
    assert_eq!(h.get_smt_root_at_height(1).unwrap(), [0u8; 32]);
}

#[test]
fn first_state_root_is_sha256_of_zero_root_and_height() {
    let mut h = SMTHelper::new(MemStore::new());
    let root = h.calculate_and_store_state_root(0, &[]).unwrap();
    assert_eq!(hex(&root), "6db65fd59fd356f6729140571b5bcd6bb3b83492a16e1bf0a3884442fc3c8a0e");
    assert_eq!(h.get_smt_root_at_height(0).unwrap(), root);
}

#[test]
fn list_keys_reads_second_field_as_hex() {
    let h = SMTHelper::new(MemStore::new());
    let scanned = vec![
        b"x:6b6b:rest".to_vec(),
        b"bst:height:5:6b".to_vec(),
        b"nocolon".to_vec(),
        b"a:zz".to_vec(),
        b"a:01".to_vec(),
    ];
    assert_eq!(h.list_keys_at_height(&scanned), vec![b"kk".to_vec(), vec![1u8]]);
}
