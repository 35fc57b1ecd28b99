use metashrew::flush_codec::{decode_flush, encode_flush, flush_buffer, flush_list};

#[test]
fn encodes_each_item_as_a_field_one_record() {
    let list = vec![b"k".to_vec(), b"v".to_vec()];
    assert_eq!(encode_flush(&list), vec![10, 1, b'k', 10, 1, b'v']);
    assert_eq!(encode_flush(&vec![]), Vec::<u8>::new());
}

#[test]
fn long_items_get_multi_byte_lengths() {
    let item = vec![7u8; 300];
    let out = encode_flush(&vec![item.clone()]);
    assert_eq!(&out[..3], &[10, 0xac, 0x02]);
    assert_eq!(&out[3..], &item[..]);
}

#[test]
fn decoding_an_encoding_gives_the_list_back() {
    let list = vec![b"key".to_vec(), vec![], vec![1u8; 200], b"value".to_vec()];
    assert_eq!(decode_flush(&encode_flush(&list)), Some(list));
    assert_eq!(decode_flush(&[]), Some(vec![]));
}

#[test]
fn other_fields_are_skipped() {
    // field 2 varint 5, field 1 "a", field 3 length-delimited "xy"
    let data = vec![16, 5, 10, 1, b'a', 26, 2, b'x', b'y'];
    assert_eq!(decode_flush(&data), Some(vec![b"a".to_vec()]));
}

#[test]
fn malformed_messages_are_refused() {
    assert_eq!(decode_flush(&[10, 5, 1]), None);
    assert_eq!(decode_flush(&[8, 1]), None);
    assert_eq!(decode_flush(&[0, 0]), None);
    assert_eq!(decode_flush(&[10]), None);
    assert_eq!(decode_flush(&[0x80]), None);
}

#[test]
fn flush_buffer_frames_the_message() {
    let pairs = vec![(b"k".to_vec(), b"v".to_vec())];
    assert_eq!(flush_list(&pairs), vec![b"k".to_vec(), b"v".to_vec()]);
    assert_eq!(flush_buffer(&pairs), vec![6, 0, 0, 0, 10, 1, b'k', 10, 1, b'v']);
}
