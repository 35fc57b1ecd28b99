use metashrew::runtime::{
    check_latest_block_for_reorg, db_rollback_key, db_set_length, db_updated_keys_for_block, db_value_at_block, flush_key_values,
    host_get_len, host_input, host_input_len, preview_flush_key_values, read_arraybuffer_as_vec, reorg_updated_keys,
    rollback_keys, run_outcome, host_get, HostWrite, try_read_arraybuffer_as_vec, MetashrewRuntimeContext, RuntimeError,
    db_annotate_value, db_make_length_key, db_make_list_key, db_make_updated_key, u32_to_vec,
};
use metashrew::store::{KeyValueStoreLike, MemStore, PreviewDBWrapper};

fn ctx_at(height: u32) -> MetashrewRuntimeContext<MemStore> {
    MetashrewRuntimeContext::new(MemStore::new(), height, vec![])
}

#[test]
fn values_are_read_as_of_a_height() {
    let mut ctx = ctx_at(5);
    flush_key_values(&mut ctx, &vec![b"k".to_vec(), b"v5".to_vec()]).unwrap();
    assert_eq!(ctx.state, 1);
    ctx.height = 8;
    flush_key_values(&mut ctx, &vec![b"k".to_vec(), b"v8".to_vec()]).unwrap();
    assert_eq!(db_value_at_block(&mut ctx, b"k", 4).unwrap(), Vec::<u8>::new());
    assert_eq!(db_value_at_block(&mut ctx, b"k", 5).unwrap(), b"v5".to_vec());
    assert_eq!(db_value_at_block(&mut ctx, b"k", 7).unwrap(), b"v5".to_vec());
    assert_eq!(db_value_at_block(&mut ctx, b"k", 9).unwrap(), b"v8".to_vec());
    assert_eq!(host_get_len(&mut ctx, b"k"), 2);
}

#[test]
fn flush_records_updated_keys() {
    let mut ctx = ctx_at(3);
    flush_key_values(&mut ctx, &vec![b"a".to_vec(), b"1".to_vec(), b"b".to_vec(), b"2".to_vec(), b"odd".to_vec()])
        .unwrap();
    // Each key of the flush goes to its own slot of the update list of
    // height 3, in the order flushed, and the list's length counts them.
    assert_eq!(ctx.db.get(&[3, 0, 0, 0, 0, 0, 0, 0]).unwrap(), Some(b"a".to_vec()));
    assert_eq!(ctx.db.get(&[3, 0, 0, 0, 1, 0, 0, 0]).unwrap(), Some(b"b".to_vec()));
    assert_eq!(ctx.db.get(&[3, 0, 0, 0, 255, 255, 255, 255]).unwrap(), Some(vec![2, 0, 0, 0]));
    // Each value is stored height first.
    assert_eq!(ctx.db.get(&[b'a', 0, 0, 0, 0]).unwrap(), Some(vec![3, 0, 0, 0, b'1']));
    assert_eq!(ctx.db.get(&[b'a', 255, 255, 255, 255]).unwrap(), Some(vec![1, 0, 0, 0]));
    let keys = db_updated_keys_for_block(&mut ctx, 3).unwrap();
    assert_eq!(keys.len(), 2);
    assert!(keys.contains(b"a"));
    assert!(keys.contains(b"b"));
    assert_eq!(check_latest_block_for_reorg(&mut ctx, 3), Ok(4));
    assert_eq!(check_latest_block_for_reorg(&mut ctx, 7), Ok(7));
}

#[test]
fn rollback_removes_later_entries() {
    let mut ctx = ctx_at(1);
    flush_key_values(&mut ctx, &vec![b"k".to_vec(), b"one".to_vec()]).unwrap();
    ctx.height = 2;
    flush_key_values(&mut ctx, &vec![b"k".to_vec(), b"two".to_vec()]).unwrap();
    // The scan at height 2 finds the update list of height 2, which lists `k`.
    let keys = reorg_updated_keys(&mut ctx).unwrap().unwrap();
    assert_eq!(keys.len(), 1);
    assert!(keys.contains(b"k"));
    // Rolling `k` back to height 2 removes the entry written at 2 and keeps
    // the one written at 1.
    rollback_keys(&mut ctx, &vec![b"k".to_vec()], 2).unwrap();
    assert_eq!(db_value_at_block(&mut ctx, b"k", 5).unwrap(), b"one".to_vec());
    assert_eq!(ctx.db.get(&[b'k', 1, 0, 0, 0]).unwrap(), None);
    assert_eq!(ctx.db.get(&[b'k', 255, 255, 255, 255]).unwrap(), Some(vec![1, 0, 0, 0]));
    // Rolling back to height 1 removes the rest, and the length key with it.
    db_rollback_key(&mut ctx, b"k", 1).unwrap();
    assert_eq!(ctx.db.get(&[b'k', 255, 255, 255, 255]).unwrap(), None);
    assert_eq!(db_value_at_block(&mut ctx, b"k", 5).unwrap(), Vec::<u8>::new());
    let mut other = ctx_at(9);
    assert!(reorg_updated_keys(&mut other).unwrap().is_none());
    db_rollback_key(&mut other, b"absent", 0).unwrap();
}

#[test]
fn preview_flush_puts_annotated_values() {
    let db = PreviewDBWrapper::new(MemStore::new());
    let mut ctx = MetashrewRuntimeContext::new(db, 4, vec![]);
    preview_flush_key_values(&mut ctx, &vec![b"k".to_vec(), b"v".to_vec()]).unwrap();
    assert_eq!(ctx.db.get(b"k").unwrap(), Some(vec![4, 0, 0, 0, b'v']));
}

#[test]
fn guest_input_and_arrays() {
    let ctx = MetashrewRuntimeContext::new(MemStore::new(), 2, vec![7, 8]);
    assert_eq!(host_input(&ctx), vec![2, 0, 0, 0, 7, 8]);
    assert_eq!(host_input_len(&ctx), 6);
    let mem = vec![0, 2, 0, 0, 0, 5, 6, 7];
    assert_eq!(try_read_arraybuffer_as_vec(&mem, 5), Ok(vec![5, 6]));
    assert_eq!(try_read_arraybuffer_as_vec(&mem, 3), Err(RuntimeError::MemoryError));
    assert!(read_arraybuffer_as_vec(&mem, 0).is_empty());
}

#[test]
fn invalid_length_is_reported() {
    let mut ctx = ctx_at(1);
    let mut lk = b"k".to_vec();
    lk.extend_from_slice(&[255, 255, 255, 255]);
    ctx.db.put(&lk, &[1, 2]).unwrap();
    assert_eq!(db_value_at_block(&mut ctx, b"k", 1), Err(RuntimeError::InvalidLength));
}

#[test]
fn key_schema_helpers() {
    assert_eq!(db_make_list_key(&b"k".to_vec(), 2).unwrap(), vec![b'k', 2, 0, 0, 0]);
    assert_eq!(db_make_length_key(&b"k".to_vec()).unwrap(), vec![b'k', 255, 255, 255, 255]);
    assert_eq!(db_make_updated_key(&b"abc".to_vec()), b"abc".to_vec());
    assert_eq!(u32_to_vec(0x01020304).unwrap(), vec![4, 3, 2, 1]);
    assert_eq!(db_annotate_value(&vec![9, 9], 5).unwrap(), vec![5, 0, 0, 0, 9, 9]);
    assert_eq!(db_annotate_value(&vec![0xaa], 1).unwrap(), vec![1, 0, 0, 0, 0xaa]);
}

#[test]
fn set_length_stores_the_count() {
    let mut ctx = ctx_at(1);
    db_set_length(&mut ctx, b"k", 3).unwrap();
    assert_eq!(ctx.db.get(&[b'k', 255, 255, 255, 255]).unwrap(), Some(vec![3, 0, 0, 0]));
    db_set_length(&mut ctx, b"k", 0).unwrap();
    assert_eq!(ctx.db.get(&[b'k', 255, 255, 255, 255]).unwrap(), None);
}

#[test]
fn a_returned_run_must_have_flushed_or_failed() {
    assert_eq!(run_outcome(1, false), Ok(()));
    assert_eq!(run_outcome(0, true), Ok(()));
    assert_eq!(run_outcome(0, false), Err(RuntimeError::ExitedUnexpectedly));
}

#[test]
fn host_reads_answer_into_guest_memory() {
    let mut ctx = ctx_at(5);
    flush_key_values(&mut ctx, &vec![b"k".to_vec(), b"val".to_vec()]).unwrap();
    // the key `k` as an array at offset 4 of the guest's memory
    let mem = vec![1, 0, 0, 0, b'k'];
    assert_eq!(host_get_len(&mut ctx, b"k"), 3);
    assert_eq!(host_get(&mut ctx, &mem, 4, 100), HostWrite::At { offset: 100, bytes: b"val".to_vec() });
    assert_eq!(host_get(&mut ctx, &mem, 0, 100), HostWrite::At { offset: 96, bytes: vec![255, 255, 255, 127] });
    let mut bad = ctx_at(1);
    let mut lk = b"k".to_vec();
    lk.extend_from_slice(&[255, 255, 255, 255]);
    bad.db.put(&lk, &[1, 2]).unwrap();
    assert_eq!(host_get_len(&mut bad, b"k"), i32::MAX);
    assert_eq!(host_get(&mut bad, &mem, 4, 100), HostWrite::Failure);
}
