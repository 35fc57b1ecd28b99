use metashrew::byte_map::{ByteMap, ByteSet};
use metashrew::diff::{
    collect_batch, compare_batches, compare_keys, compare_updates, fetch_continues, key_matches_height, DiffAction, DiffEvent,
    DiffPipelineState, KeyTracker, TrackingAdapter,
};
use metashrew::store::{BatchLike, KeyValueStoreLike, MemStore};

fn set(items: &[&[u8]]) -> ByteSet {
    let mut s = ByteSet::new();
    for i in items {
        s.insert(i.to_vec());
    }
    s
}

#[test]
fn key_tracker_keeps_prefixed_keys() {
    let mut t = KeyTracker::new(b"p/".to_vec());
    t.track_key(b"p/a");
    t.track_key(b"q/a");
    t.track_key(b"p/a");
    assert_eq!(t.get_keys().len(), 1);
    assert!(t.get_keys().contains(b"p/a"));
    t.clear();
    assert!(t.get_keys().is_empty());
}

#[test]
fn key_set_differences() {
    let (p, c) = compare_keys(&set(&[b"a", b"b"]), &set(&[b"b", b"c"]));
    assert_eq!(p, vec![b"a".to_vec()]);
    assert_eq!(c, vec![b"c".to_vec()]);
}

#[test]
fn update_differences() {
    let mut p = ByteMap::new();
    p.insert(b"a".to_vec(), b"1".to_vec());
    p.insert(b"b".to_vec(), b"2".to_vec());
    p.insert(b"c".to_vec(), b"3".to_vec());
    let mut c = ByteMap::new();
    c.insert(b"b".to_vec(), b"2".to_vec());
    c.insert(b"c".to_vec(), b"4".to_vec());
    c.insert(b"d".to_vec(), b"5".to_vec());
    let (po, co, vd) = compare_updates(&p, &c);
    assert_eq!(po, vec![b"a".to_vec()]);
    assert_eq!(co, vec![b"d".to_vec()]);
    assert_eq!(vd, vec![(b"c".to_vec(), b"3".to_vec(), b"4".to_vec())]);
}

#[test]
fn height_in_keys() {
    let mut key = vec![0u8; 8];
    key.extend_from_slice(&[0, 0, 1, 2]);
    assert!(key_matches_height(&key, 258));
    assert!(!key_matches_height(&key, 259));
    assert!(key_matches_height(b"short", 1));
}

#[test]
fn batches_stop_at_prefix_end() {
    let items = vec![
        Some((b"p1".to_vec(), b"v".to_vec())),
        None,
        Some((b"p2".to_vec(), b"w".to_vec())),
        Some((b"q1".to_vec(), b"x".to_vec())),
        Some((b"p3".to_vec(), b"y".to_vec())),
    ];
    let scan = collect_batch(&items, false, b"p", None, 10, 0, 0);
    assert_eq!(scan.count, 2);
    assert!(scan.exhausted);
    assert_eq!(scan.consumed, 4);
    assert_eq!(scan.batch.len(), 2);
    let scan = collect_batch(&items, false, b"p", None, 1, 0, 0);
    assert_eq!(scan.count, 1);
    assert!(!scan.exhausted);
    assert_eq!(scan.consumed, 1);
    let scan = collect_batch(&items, false, b"p", None, 10, 3, 2);
    assert!(scan.exhausted);
    assert_eq!(scan.count, 1);
}

#[test]
fn tracking_adapter_records_prefixed_writes() {
    let mut a = TrackingAdapter::new(MemStore::new(), b"t/".to_vec());
    a.put(b"t/x", b"1").unwrap();
    a.put(b"u/x", b"1").unwrap();
    let mut batch = <metashrew::diff::TrackingBatch<metashrew::store::MemBatch> as BatchLike>::default();
    batch.put(b"t/y", b"2");
    a.write(batch).unwrap();
    let keys = a.get_tracked_keys();
    assert_eq!(keys.len(), 2);
    assert_eq!(a.get(b"t/y").unwrap(), Some(b"2".to_vec()));
    a.clear_tracked_keys();
    assert!(a.get_tracked_keys().is_empty());
}

#[test]
fn batches_compare_by_key_and_value() {
    let mut a = ByteMap::new();
    a.insert(b"x".to_vec(), b"1".to_vec());
    a.insert(b"y".to_vec(), b"2".to_vec());
    let mut b = ByteMap::new();
    b.insert(b"y".to_vec(), b"3".to_vec());
    b.insert(b"z".to_vec(), b"4".to_vec());
    let (only_a, only_b, diffs) = compare_batches(&a, &b);
    assert_eq!(only_a, vec![b"x".to_vec()]);
    assert_eq!(only_b, vec![b"z".to_vec()]);
    assert_eq!(diffs, vec![(b"y".to_vec(), b"2".to_vec(), b"3".to_vec())]);
}

#[test]
fn pipeline_advances_past_clean_blocks() {
    let mut s = DiffPipelineState::new(10, 2, None);
    assert_eq!(s.on_result(DiffEvent::Success(10)), DiffAction::Continue);
    assert_eq!(s.height, 11);
    assert_eq!(s.on_result(DiffEvent::Error(11)), DiffAction::Wait);
    assert_eq!(s.height, 11);
    assert_eq!(s.diffs_found, 0);
}

#[test]
fn pipeline_counts_differences_up_to_the_limit() {
    let mut s = DiffPipelineState::new(5, 2, None);
    assert_eq!(s.on_result(DiffEvent::Difference(5)), DiffAction::Continue);
    assert_eq!(s.height, 6);
    assert_eq!(s.diffs_found, 1);
    assert_eq!(s.on_result(DiffEvent::Difference(6)), DiffAction::SaveSummaryAndStop);
    assert_eq!(s.diffs_found, 2);
    assert_eq!(s.diff_blocks, vec![5, 6]);
    assert_eq!(s.height, 6);
    let mut first = DiffPipelineState::new(0, 0, None);
    assert_eq!(first.on_result(DiffEvent::Difference(0)), DiffAction::SaveSummaryAndStop);
}

#[test]
fn pipeline_stops_past_exit_height() {
    let mut s = DiffPipelineState::new(7, 12, Some(8));
    assert_eq!(s.on_result(DiffEvent::Success(7)), DiffAction::Continue);
    assert_eq!(s.on_result(DiffEvent::Success(8)), DiffAction::SaveSummaryAndStop);
    assert_eq!(s.height, 9);
    let mut late = DiffPipelineState::new(9, 12, Some(8));
    assert_eq!(late.on_result(DiffEvent::Error(9)), DiffAction::SaveSummaryAndStop);
    assert!(fetch_continues(7, Some(8)));
    assert!(!fetch_continues(8, Some(8)));
    assert!(fetch_continues(u32::MAX, None));
}
