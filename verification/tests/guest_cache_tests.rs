use metashrew::guest_cache::{value_from_host_buffer, GuestCache};

#[test]
fn writes_are_read_back_and_flushed_in_order() {
    let mut c = GuestCache::new();
    assert_eq!(c.lookup(b"a"), None);
    c.set(b"a", b"1");
    c.remember(b"b", b"2");
    c.set(b"c", b"3");
    c.set(b"a", b"4");
    assert_eq!(c.lookup(b"a"), Some(b"4".to_vec()));
    assert_eq!(c.lookup(b"b"), Some(b"2".to_vec()));
    let list = c.take_flush_list();
    assert_eq!(list, vec![b"a".to_vec(), b"4".to_vec(), b"c".to_vec(), b"3".to_vec(), b"a".to_vec(), b"4".to_vec()]);
    assert!(c.take_flush_list().is_empty());
    assert_eq!(c.lookup(b"c"), Some(b"3".to_vec()));
}

#[test]
fn flush_buffers_carry_the_message_length() {
    let mut c = GuestCache::new();
    c.set(b"k", b"v");
    assert_eq!(c.flush(), vec![6, 0, 0, 0, 10, 1, b'k', 10, 1, b'v']);
    assert_eq!(c.flush(), vec![0, 0, 0, 0]);
    c.clear();
    assert_eq!(c.lookup(b"k"), None);
}

#[test]
fn host_buffers_drop_the_length() {
    assert_eq!(value_from_host_buffer(&[2, 0, 0, 0, 7, 8]), vec![7, 8]);
    assert_eq!(value_from_host_buffer(&[1, 2]), Vec::<u8>::new());
}
