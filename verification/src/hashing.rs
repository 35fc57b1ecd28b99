//! The digests and the hex encoding the library relies on.
//!
//! The digest functions themselves come from outside crates; each is named by
//! an uninterpreted spec function, so that contracts can say which bytes were
//! hashed without restating the hash.

use vstd::prelude::*;
use blake2::Digest as _;
use tiny_keccak::Hasher as _;

verus! {

/// The BLAKE2b-512 digest of `data`.
pub uninterp spec fn blake2b512(data: Seq<u8>) -> Seq<u8>;

/// The SHA-256 digest of `data`.
pub uninterp spec fn sha256(data: Seq<u8>) -> Seq<u8>;

/// The Keccak-256 digest of `data`.
pub uninterp spec fn keccak256(data: Seq<u8>) -> Seq<u8>;

/// Calls `blake2::Blake2b512::digest` on `data`. The contract claims that the
/// 64 bytes returned are the digest of exactly these bytes: feeding a hasher
/// several slices in turn gives the digest of their concatenation, so callers
/// concatenate first.
#[verifier::external_body]
pub(crate) fn blake2b512_digest(data: &[u8]) -> (r: [u8; 64])
    ensures r@ == blake2b512(data@),
{
    let out = blake2::Blake2b512::digest(data);
    let mut r = [0u8; 64];
    r.copy_from_slice(&out);
    r
}

/// Calls `sha2::Sha256::digest` on `data`; the contract claims that the 32
/// bytes returned are the digest of exactly these bytes.
#[verifier::external_body]
pub(crate) fn sha256_digest(data: &[u8]) -> (r: [u8; 32])
    ensures r@ == sha256(data@),
{
    let out = sha2::Sha256::digest(data);
    let mut r = [0u8; 32];
    r.copy_from_slice(&out);
    r
}

/// Feeds `data` to `tiny_keccak::Keccak::v256` and finalizes it; the contract
/// claims that the 32 bytes written are the digest of exactly these bytes.
#[verifier::external_body]
pub(crate) fn keccak256_digest(data: &[u8]) -> (r: [u8; 32])
    ensures r@ == keccak256(data@),
{
    let mut hasher = tiny_keccak::Keccak::v256();
    hasher.update(data);
    let mut r = [0u8; 32];
    hasher.finalize(&mut r);
    r
}

/// The lowercase hex digit for `n` (below 16), as an ASCII byte.
pub open spec fn hex_digit(n: int) -> u8 {
    if n < 10 { (48 + n) as u8 } else { (87 + n) as u8 }
}

/// The lowercase hex text of `data`, as ASCII bytes: two digits per byte,
/// high nibble first.
pub open spec fn hex_text(data: Seq<u8>) -> Seq<u8> {
    Seq::new(2 * data.len(), |i: int| if i % 2 == 0 {
        hex_digit(data[i / 2] as int / 16)
    } else {
        hex_digit(data[i / 2] as int % 16)
    })
}

/// The value of a hex digit of either case, if `c` is one.
pub open spec fn hex_value(c: u8) -> Option<int> {
    if 48 <= c <= 57 {
        Some(c - 48)
    } else if 97 <= c <= 102 {
        Some(c - 87)
    } else if 65 <= c <= 70 {
        Some(c - 55)
    } else {
        None
    }
}

/// Whether `text` is an even number of hex digits.
pub open spec fn is_hex_text(text: Seq<u8>) -> bool {
    text.len() % 2 == 0 && forall|i: int| 0 <= i < text.len() ==> (#[trigger] hex_value(text[i])) is Some
}

/// The bytes that the hex digits of `text` spell, two digits per byte.
pub open spec fn hex_bytes(text: Seq<u8>) -> Seq<u8> {
    Seq::new(text.len() / 2, |i: int|
        (hex_value(text[2 * i])->0 * 16 + hex_value(text[2 * i + 1])->0) as u8)
}

/// Calls `hex::encode`, which writes each byte as two lowercase hex digits,
/// high nibble first (its documentation and source say so); the text is
/// handed back as its ASCII bytes.
#[verifier::external_body]
pub(crate) fn hex_encode(data: &[u8]) -> (s: Vec<u8>)
    ensures s@ == hex_text(data@),
{
    hex::encode(data).into_bytes()
}

/// Calls `hex::decode`. Its source refuses text of odd length or with a
/// character that is not a hex digit of either case (then `None` here), and
/// otherwise reads each pair of digits as one byte, high nibble first.
#[verifier::external_body]
pub(crate) fn hex_decode(text: &[u8]) -> (r: Option<Vec<u8>>)
    ensures
        r is Some <==> is_hex_text(text@),
        r matches Some(v) ==> v@ == hex_bytes(text@),
{
    hex::decode(text).ok()
}

} // verus!
