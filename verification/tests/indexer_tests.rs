use metashrew::indexer::{
    parse_host_input, BlockCounter, Indexer, InputError, KeyValueFlush, KeyValueStore, MetashrewIndexer, NativeRuntime,
};

#[test]
fn host_input_is_height_then_block() {
    assert_eq!(parse_host_input(&[1, 0, 0, 0, 9, 9]), Ok((1, vec![9, 9])));
    assert_eq!(parse_host_input(&[1, 0, 0, 0]), Err(InputError::InvalidInputLength));
}

#[test]
fn native_runtime_stores_flushes() {
    let mut rt = NativeRuntime::new(BlockCounter::new());
    rt.process_block(1, b"block").unwrap();
    assert_eq!(rt.get(b"block_count"), Some(vec![1, 0, 0, 0]));
    assert_eq!(rt.get(b"last_height"), Some(vec![1, 0, 0, 0]));
    rt.process_block(7, b"another").unwrap();
    assert_eq!(rt.height(), 7);
    assert_eq!(rt.get(b"block_count"), Some(vec![2, 0, 0, 0]));
    assert_eq!(rt.get(b"last_height"), Some(vec![7, 0, 0, 0]));
    assert_eq!(rt.get(b"absent"), None);
}

#[test]
fn block_counter_flushes_its_state() {
    let mut c = BlockCounter::new();
    assert_eq!(c.flush().unwrap(), Vec::<(Vec<u8>, Vec<u8>)>::new());
    c.index_block(3, b"").unwrap();
    let mut pairs = c.flush().unwrap();
    pairs.sort();
    assert_eq!(pairs, vec![(b"block_count".to_vec(), vec![1, 0, 0, 0]), (b"last_height".to_vec(), vec![3, 0, 0, 0])]);
    let wrapped = MetashrewIndexer::new(BlockCounter::new());
    assert_eq!(wrapped.get_indexer().flush().unwrap().len(), 0);
}

#[test]
fn key_value_store_and_flush_message() {
    let mut s = KeyValueStore::new();
    s.set(b"a".to_vec(), b"1".to_vec());
    assert_eq!(s.get(b"a"), Some(&b"1".to_vec()));
    assert!(s.contains_key(b"a"));
    assert_eq!(s.pairs(), vec![(b"a".to_vec(), b"1".to_vec())]);
    assert_eq!(s.remove(b"a"), Some(b"1".to_vec()));
    let mut f = KeyValueFlush::new();
    f.add_pair(b"k".to_vec(), b"v".to_vec());
    assert_eq!(f.pair_count(), 1);
    assert_eq!(f.list, vec![b"k".to_vec(), b"v".to_vec()]);
}

#[test]
fn store_reads_back_a_set_past_other_changes() {
    let mut s = KeyValueStore::new();
    s.set(b"k".to_vec(), b"v".to_vec());
    s.set(b"other".to_vec(), b"1".to_vec());
    s.remove(b"gone");
    s.remove(b"other");
    assert_eq!(s.get(b"k"), Some(&b"v".to_vec()));
    assert!(s.contains_key(b"k"));
    assert!(!s.contains_key(b"other"));
}

#[test]
fn wrapped_indexer_processes_host_input() {
    let mut wrapped = MetashrewIndexer::new(BlockCounter::new());
    let err = wrapped.process_input(&[1, 0, 0, 0]).unwrap_err();
    assert_eq!(err.message, "Invalid input length");
    let buf = wrapped.process_input(&[9, 0, 0, 0, 0xab]).unwrap();
    let len = u32::from_le_bytes([buf[0], buf[1], buf[2], buf[3]]) as usize;
    assert_eq!(len, buf.len() - 4);
    let list = metashrew::flush_codec::decode_flush(&buf[4..]).unwrap();
    assert_eq!(list.len(), 4);
    let mut pairs: Vec<(Vec<u8>, Vec<u8>)> = list.chunks(2).map(|c| (c[0].clone(), c[1].clone())).collect();
    pairs.sort();
    assert_eq!(pairs, vec![(b"block_count".to_vec(), vec![1, 0, 0, 0]), (b"last_height".to_vec(), vec![9, 0, 0, 0])]);
}
