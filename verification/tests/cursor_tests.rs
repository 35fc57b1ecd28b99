use metashrew::byte_view::{shrink_back, ByteView};
use metashrew::cursor::{
    consume_exact, consume_sized_int, consume_to_end, consume_u128, consume_varint, is_empty, remaining_slice, ByteCursor,
    CursorError,
};

#[test]
fn exact_reads_advance() {
    let mut c = ByteCursor::new(vec![1, 2, 3, 4, 5]);
    assert_eq!(consume_exact(&mut c, 2), Ok(vec![1, 2]));
    assert_eq!(c.get_position(), 2);
    assert_eq!(remaining_slice(&mut c), &[3, 4, 5]);
    assert_eq!(consume_exact(&mut c, 4), Err(CursorError::UnexpectedEof));
    assert!(is_empty(&mut c));
}

#[test]
fn reads_to_end() {
    let mut c = ByteCursor::new(vec![1, 2, 3]);
    c.set_position(1);
    assert_eq!(consume_to_end(&mut c), Ok(vec![2, 3]));
    assert!(is_empty(&mut c));
}

#[test]
fn sized_integers() {
    let mut c = ByteCursor::new(vec![1, 0, 2, 0, 0, 0, 9]);
    assert_eq!(consume_sized_int::<u16>(&mut c), Ok(1));
    assert_eq!(consume_sized_int::<u32>(&mut c), Ok(2));
    assert_eq!(consume_sized_int::<u8>(&mut c), Ok(9));
    assert_eq!(consume_sized_int::<u8>(&mut c), Err(CursorError::UnexpectedEof));
    let mut d = ByteCursor::new(vec![7; 16]);
    assert_eq!(consume_u128(&mut d), Ok(u128::from_le_bytes([7; 16])));
}

#[test]
fn compact_size_integers() {
    let mut c = ByteCursor::new(vec![5, 0xfd, 1, 2, 0xfe, 1, 0, 0, 0, 0xff, 2, 0, 0, 0, 0, 0, 0, 0]);
    assert_eq!(consume_varint(&mut c), Ok(5));
    assert_eq!(consume_varint(&mut c), Ok(0x0201));
    assert_eq!(consume_varint(&mut c), Ok(1));
    assert_eq!(consume_varint(&mut c), Ok(2));
    let mut short = ByteCursor::new(vec![0xfd, 1]);
    assert_eq!(consume_varint(&mut short), Err(CursorError::UnexpectedEof));
}

#[test]
fn byte_views() {
    assert_eq!(<u32 as ByteView>::from_bytes(vec![1, 1, 0, 0]), 257);
    assert_eq!(ByteView::to_bytes(&258u16), vec![2, 1]);
    assert_eq!(<u64 as ByteView>::maximum(), u64::MAX);
    assert_eq!(<u8 as ByteView>::zero(), 0);
    assert_eq!(<u128 as ByteView>::byte_width(), 16);
    assert!(shrink_back(vec![1, 2, 3], 0).is_empty());
}
