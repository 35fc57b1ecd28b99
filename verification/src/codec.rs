//! Length-prefixed and height-annotated byte layouts shared by the indexer
//! guest side, the host runtime and the key schema of the versioned store.

use vstd::prelude::*;
use vstd::utf8::*;
use vstd::string::StringSliceAdditionalSpecFns;
use crate::bytes::{append_bytes, copy_bytes, sub_bytes};
use crate::le::{le_bytes, le_nat, pow256, lemma_le_bytes_len, lemma_le_nat_of_le_bytes, lemma_le_bytes_of_le_nat, u32_le};

verus! {

/// Why a byte layout could not be decoded.
#[derive(Debug, Clone, PartialEq, Eq)]
pub enum CodecError {
    /// Fewer than four bytes were given where a `u32` prefix or suffix is expected.
    TooShort,
    /// The length prefix promises more bytes than the input holds.
    TooShortForLength { len: u32 },
    /// The payload is not UTF-8.
    InvalidUtf8,
}

/// The 4-byte little-endian encoding of `x`.
pub open spec fn le32(x: u32) -> Seq<u8> {
    le_bytes(x as nat, 4)
}

/// `key` followed by the encoding of `index`: the key of the `index`-th entry
/// of the list stored under `key`.
pub open spec fn list_key(key: Seq<u8>, index: u32) -> Seq<u8> {
    key + le32(index)
}

/// The key under which the length of the list stored under `key` is kept.
pub open spec fn length_key(key: Seq<u8>) -> Seq<u8> {
    list_key(key, u32::MAX)
}

/// The encoding of `height` followed by `value`: a chain entry.
pub open spec fn annotated(value: Seq<u8>, height: u32) -> Seq<u8> {
    le32(height) + value
}

/// The value of a 4-byte little-endian string, as a `u32`.
pub open spec fn le32_value(s: Seq<u8>) -> u32 {
    le_nat(s) as u32
}

/// `payload` prefixed by the encoding of its length.
pub open spec fn length_prefixed(payload: Seq<u8>) -> Seq<u8> {
    le32(payload.len() as u32) + payload
}

pub proof fn lemma_le32_len(x: u32)
    ensures le32(x).len() == 4,
{
    lemma_le_bytes_len(x as nat, 4);
}

/// Decoding the encoding of a `u32` gives it back.
pub proof fn lemma_le32_roundtrip(x: u32)
    ensures le32_value(le32(x)) == x, le32(x).len() == 4,
{
    lemma_le32_len(x);
    assert(pow256(4) == 0x1_0000_0000) by { reveal_with_fuel(pow256, 5); }
    lemma_le_nat_of_le_bytes(x as nat, 4);
}

/// Every 4-byte string is the encoding of its value.
pub proof fn lemma_le32_of_value(s: Seq<u8>)
    requires s.len() == 4,
    ensures le32(le32_value(s)) == s, le_nat(s) < 0x1_0000_0000,
{
    lemma_le_bytes_of_le_nat(s);
    assert(pow256(4) == 0x1_0000_0000) by { reveal_with_fuel(pow256, 5); }
}

/// The encoding is injective.
pub proof fn lemma_le32_injective(x: u32, y: u32)
    requires le32(x) == le32(y),
    ensures x == y,
{
    lemma_le32_roundtrip(x);
    lemma_le32_roundtrip(y);
}

/// Little-endian encoding of `value`.
pub fn u32_to_le_bytes(value: u32) -> (out: [u8; 4])
    ensures out@ == le32(value),
{
    u32_le(value)
}

/// The `u32` stored little-endian in four bytes.
pub fn u32_from_le4(b0: u8, b1: u8, b2: u8, b3: u8) -> (v: u32)
    ensures v == le32_value(seq![b0, b1, b2, b3]), le32(v) == seq![b0, b1, b2, b3],
{
    let v: u32 = (b0 as u32) + 256 * (b1 as u32) + 65536 * (b2 as u32) + 16777216 * (b3 as u32);
    proof {
        let s = seq![b0, b1, b2, b3];
        reveal_with_fuel(le_nat, 5);
        assert(s.drop_first() =~= seq![b1, b2, b3]);
        assert(s.drop_first().drop_first() =~= seq![b2, b3]);
        assert(s.drop_first().drop_first().drop_first() =~= seq![b3]);
        assert(s.drop_first().drop_first().drop_first().drop_first() =~= Seq::<u8>::empty());
        assert(le_nat(s) == v as nat);
        lemma_le32_of_value(s);
    }
    v
}

/// Reads the little-endian `u32` at the front of `bytes`.
pub fn le_bytes_to_u32(bytes: &[u8]) -> (r: Result<u32, CodecError>)
    ensures
        bytes@.len() < 4 <==> r is Err,
        r is Err ==> r == Err::<u32, CodecError>(CodecError::TooShort),
        r matches Ok(v) ==> v == le32_value(bytes@.subrange(0, 4)) && le32(v) == bytes@.subrange(0, 4),
{
    if bytes.len() < 4 {
        return Err(CodecError::TooShort);
    }
    let v = u32_from_le4(bytes[0], bytes[1], bytes[2], bytes[3]);
    assert(bytes@.subrange(0, 4) =~= seq![bytes@[0], bytes@[1], bytes@[2], bytes@[3]]);
    Ok(v)
}

/// `key` followed by the encoding of `index`.
pub fn make_list_key(key: &[u8], index: u32) -> (out: Vec<u8>)
    ensures out@ == list_key(key@, index),
{
    let mut result = copy_bytes(key);
    let enc = u32_to_le_bytes(index);
    append_bytes(&mut result, &enc);
    result
}

/// The key under which the length of the list stored under `key` is kept.
pub fn make_length_key(key: &[u8]) -> (out: Vec<u8>)
    ensures out@ == length_key(key@),
{
    make_list_key(key, u32::MAX)
}

/// The encoding of `height` followed by `value`.
pub fn annotate_value(value: &[u8], height: u32) -> (out: Vec<u8>)
    ensures out@ == annotated(value@, height),
{
    let enc = u32_to_le_bytes(height);
    let mut result = copy_bytes(&enc);
    append_bytes(&mut result, value);
    result
}

/// Splits an annotated value into the height at its start and the value.
pub fn extract_annotated_value(annotated_bytes: &[u8]) -> (r: Result<(Vec<u8>, u32), CodecError>)
    ensures
        annotated_bytes@.len() < 4 <==> r is Err,
        r is Err ==> r == Err::<(Vec<u8>, u32), CodecError>(CodecError::TooShort),
        r matches Ok((value, height)) ==> annotated(value@, height) == annotated_bytes@
            && value@ == annotated_bytes@.subrange(4, annotated_bytes@.len() as int)
            && height == le32_value(annotated_bytes@.subrange(0, 4)),
{
    let n = annotated_bytes.len();
    if n < 4 {
        return Err(CodecError::TooShort);
    }
    let value = sub_bytes(annotated_bytes, 4, n);
    let height = u32_from_le4(annotated_bytes[0], annotated_bytes[1], annotated_bytes[2], annotated_bytes[3]);
    assert(annotated_bytes@.subrange(0, 4) =~= seq![annotated_bytes@[0], annotated_bytes@[1], annotated_bytes@[2], annotated_bytes@[3]]);
    proof { lemma_le32_of_value(annotated_bytes@.subrange(0, 4)); }
    assert(annotated(value@, height) =~= annotated_bytes@);
    Ok((value, height))
}

/// `bytes` prefixed by the encoding of its length.
pub fn encode_bytes(bytes: &[u8]) -> (out: Vec<u8>)
    ensures out@ == length_prefixed(bytes@),
{
    let len = bytes.len() as u32;
    let mut result: Vec<u8> = Vec::new();
    let enc = u32_to_le_bytes(len);
    append_bytes(&mut result, &enc);
    append_bytes(&mut result, bytes);
    result
}

/// The UTF-8 bytes of `s` prefixed by the encoding of their count.
pub fn encode_string(s: &str) -> (out: Vec<u8>)
    ensures out@ == length_prefixed(s.spec_bytes()),
{
    encode_bytes(s.as_bytes())
}

/// The payload of a length-prefixed layout, as its prefix delimits it.
pub open spec fn prefixed_payload(bytes: Seq<u8>) -> Seq<u8> {
    bytes.subrange(4, 4 + le32_value(bytes.subrange(0, 4)) as int)
}

/// Whether `bytes` holds at least as many bytes as its length prefix says.
pub open spec fn prefix_fits(bytes: Seq<u8>) -> bool {
    bytes.len() >= 4 && bytes.len() >= 4 + le32_value(bytes.subrange(0, 4))
}

/// Reads a length-prefixed payload.
pub fn decode_bytes(bytes: &[u8]) -> (r: Result<Vec<u8>, CodecError>)
    ensures
        r is Ok <==> prefix_fits(bytes@),
        bytes@.len() < 4 ==> r == Err::<Vec<u8>, CodecError>(CodecError::TooShort),
        bytes@.len() >= 4 && !prefix_fits(bytes@) ==> r == Err::<Vec<u8>, CodecError>(
            CodecError::TooShortForLength { len: le32_value(bytes@.subrange(0, 4)) }),
        r matches Ok(v) ==> v@ == prefixed_payload(bytes@),
{
    let len = match le_bytes_to_u32(bytes) {
        Ok(l) => l,
        Err(e) => return Err(e),
    };
    if (bytes.len() as u64) < 4 + (len as u64) {
        return Err(CodecError::TooShortForLength { len });
    }
    Ok(sub_bytes(bytes, 4, 4 + len as usize))
}

/// `String::from_utf8`: the string whose UTF-8 encoding is `bytes`, when
/// `bytes` is valid UTF-8 (std documents that it fails exactly otherwise).
#[verifier::external_body]
pub(crate) fn string_from_utf8(bytes: Vec<u8>) -> (r: Option<String>)
    ensures
        r is Some <==> valid_utf8(bytes@),
        r matches Some(s) ==> s@ == decode_utf8(bytes@),
{
    String::from_utf8(bytes).ok()
}

/// Reads a length-prefixed UTF-8 string.
pub fn decode_string(bytes: &[u8]) -> (r: Result<String, CodecError>)
    ensures
        r is Ok <==> prefix_fits(bytes@) && valid_utf8(prefixed_payload(bytes@)),
        bytes@.len() < 4 ==> r == Err::<String, CodecError>(CodecError::TooShort),
        bytes@.len() >= 4 && !prefix_fits(bytes@) ==> r == Err::<String, CodecError>(
            CodecError::TooShortForLength { len: le32_value(bytes@.subrange(0, 4)) }),
        prefix_fits(bytes@) && !valid_utf8(prefixed_payload(bytes@)) ==> r == Err::<String, CodecError>(
            CodecError::InvalidUtf8),
        r matches Ok(s) ==> s@ == decode_utf8(prefixed_payload(bytes@)),
{
    let payload = match decode_bytes(bytes) {
        Ok(p) => p,
        Err(e) => return Err(e),
    };
    match string_from_utf8(payload) {
        Some(s) => Ok(s),
        None => Err(CodecError::InvalidUtf8),
    }
}

/// The host-side layout of a byte array handed across the guest boundary:
/// its length, then its bytes.
pub fn to_arraybuffer_layout(v: &[u8]) -> (out: Vec<u8>)
    ensures out@ == length_prefixed(v@),
{
    encode_bytes(v)
}

/// Decoding what `encode_bytes` produced gives the payload back.
pub proof fn lemma_decode_encode_bytes(payload: Seq<u8>)
    requires payload.len() <= u32::MAX,
    ensures
        prefix_fits(length_prefixed(payload)),
        prefixed_payload(length_prefixed(payload)) == payload,
{
    let e = length_prefixed(payload);
    lemma_le32_roundtrip(payload.len() as u32);
    assert(e.subrange(0, 4) =~= le32(payload.len() as u32));
    assert(e.subrange(4, 4 + payload.len() as int) =~= payload);
}

/// Splitting an annotated value gives back the value and the height.
pub proof fn lemma_annotated_split(value: Seq<u8>, height: u32)
    ensures
        annotated(value, height).len() == value.len() + 4,
        annotated(value, height).subrange(4, value.len() as int + 4) == value,
        le32_value(annotated(value, height).subrange(0, 4)) == height,
{
    lemma_le32_roundtrip(height);
    lemma_le32_len(height);
    let a = annotated(value, height);
    assert(a.subrange(4, value.len() as int + 4) =~= value);
    assert(a.subrange(0, 4) =~= le32(height));
}

/// The decimal digits of `x`, as ASCII bytes, most significant first.
pub open spec fn decimal(x: nat) -> Seq<u8>
    decreases x,
{
    if x < 10 { seq![(48 + x) as u8] } else { decimal(x / 10) + seq![(48 + x % 10) as u8] }
}

/// Appends the decimal digits of `x`.
pub fn push_decimal(out: &mut Vec<u8>, x: u32)
    ensures final(out)@ == old(out)@ + decimal(x as nat),
    decreases x,
{
    if x >= 10 {
        push_decimal(out, x / 10);
    }
    out.push((48 + x % 10) as u8);
    assert(final(out)@ =~= old(out)@ + decimal(x as nat)) by {
        if x < 10 {
            assert(x % 10 == x);
        }
    }
}

/// Appends the decimal digits of a 64-bit `x`.
pub fn push_decimal_u64(out: &mut Vec<u8>, x: u64)
    ensures final(out)@ == old(out)@ + decimal(x as nat),
    decreases x,
{
    if x >= 10 {
        push_decimal_u64(out, x / 10);
    }
    out.push((48 + x % 10) as u8);
    assert(final(out)@ =~= old(out)@ + decimal(x as nat)) by {
        if x < 10 {
            assert(x % 10 == x);
        }
    }
}

/// The decimal digits of `x`, as ASCII bytes.
pub fn u32_decimal(x: u32) -> (out: Vec<u8>)
    ensures out@ == decimal(x as nat),
{
    let mut out: Vec<u8> = Vec::new();
    push_decimal(&mut out, x);
    assert(out@ =~= decimal(x as nat));
    out
}

} // verus!
