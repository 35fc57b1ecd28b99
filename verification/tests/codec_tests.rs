use metashrew::key_format::{format_key, format_key_bytes};
use metashrew::codec::{
    annotate_value, decode_bytes, decode_string, encode_bytes, encode_string, extract_annotated_value, le_bytes_to_u32,
    make_length_key, make_list_key, to_arraybuffer_layout, u32_decimal, u32_to_le_bytes, CodecError,
};

#[test]
fn little_endian_words() {
    assert_eq!(u32_to_le_bytes(0x01020304), [4, 3, 2, 1]);
    assert_eq!(le_bytes_to_u32(&[4, 3, 2, 1, 9]), Ok(0x01020304));
    assert_eq!(le_bytes_to_u32(&[1, 2, 3]), Err(CodecError::TooShort));
}

#[test]
fn list_and_length_keys() {
    assert_eq!(make_list_key(b"k", 1), vec![b'k', 1, 0, 0, 0]);
    assert_eq!(make_length_key(b"k"), vec![b'k', 255, 255, 255, 255]);
}

#[test]
fn annotated_values() {
    let a = annotate_value(b"val", 258);
    assert_eq!(a, vec![2, 1, 0, 0, b'v', b'a', b'l']);
    assert_eq!(extract_annotated_value(&a), Ok((b"val".to_vec(), 258)));
    assert_eq!(extract_annotated_value(&[1, 2]), Err(CodecError::TooShort));
}

#[test]
fn length_prefixed_bytes() {
    let e = encode_bytes(b"abc");
    assert_eq!(e, vec![3, 0, 0, 0, b'a', b'b', b'c']);
    assert_eq!(decode_bytes(&e), Ok(b"abc".to_vec()));
    assert_eq!(decode_bytes(&[5, 0, 0, 0, 1]), Err(CodecError::TooShortForLength { len: 5 }));
    assert_eq!(decode_bytes(&[1]), Err(CodecError::TooShort));
    assert_eq!(to_arraybuffer_layout(b"x"), vec![1, 0, 0, 0, b'x']);
}

#[test]
fn strings() {
    let e = encode_string("hé");
    assert_eq!(e, vec![3, 0, 0, 0, b'h', 0xc3, 0xa9]);
    assert_eq!(decode_string(&e), Ok("hé".to_string()));
    assert_eq!(decode_string(&[1, 0, 0, 0, 0xff]), Err(CodecError::InvalidUtf8));
}

#[test]
fn decimal_text() {
    assert_eq!(u32_decimal(0), b"0".to_vec());
    assert_eq!(u32_decimal(4294967295), b"4294967295".to_vec());
}

#[test]
fn keys_are_formatted_piece_by_piece() {
    assert_eq!(format_key(&b"/blocks/12".to_vec()), "/blocks/12");
    assert_eq!(format_key(&vec![47, 98, 47, 0xff, 0x01]), "/b/ff01");
    assert_eq!(format_key(&b"abc".to_vec()), "/abc");
    assert_eq!(format_key(&vec![]), "");
    assert_eq!(format_key_bytes(&b"a//b/".to_vec()), b"/a/b".to_vec());
}
