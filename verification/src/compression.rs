//! The calls into the zstd crate that compress interval diffs and
//! decompress downloaded ones.

use vstd::prelude::*;

verus! {

/// What `zstd::encode_all` produces from `data` at compression level `level`.
pub uninterp spec fn zstd_compressed(data: Seq<u8>, level: i32) -> Seq<u8>;

/// What `zstd::decode_all` produces from `data`: the decompressed bytes, or
/// `None` when `data` is not a run of zstd frames.
pub uninterp spec fn zstd_decompressed(data: Seq<u8>) -> Option<Seq<u8>>;

/// `zstd::encode_all` on the bytes of `data` at `level`, writing into a
/// vector. The contract claims that its output is the named compression of
/// `data` at `level` (reading a slice and writing a vector do not fail, and
/// a level out of range is clamped), and that decompressing it gives `data`
/// back (zstd is lossless).
#[verifier::external_body]
pub(crate) fn zstd_encode(data: &[u8], level: i32) -> (c: Vec<u8>)
    ensures
        c@ == zstd_compressed(data@, level),
        zstd_decompressed(c@) == Some(data@),
{
    match zstd::encode_all(data, level) {
        Ok(c) => c,
        Err(_) => Vec::new(),
    }
}

/// `zstd::decode_all` on the bytes of `data`. The contract claims that the
/// call gives an output exactly when `data` is a run of zstd frames, and that
/// the output is the named decompression of `data`.
#[verifier::external_body]
pub(crate) fn zstd_decode(data: &[u8]) -> (r: Option<Vec<u8>>)
    ensures
        r matches Some(d) ==> zstd_decompressed(data@) == Some(d@),
        r is Some <==> zstd_decompressed(data@) is Some,
{
    zstd::decode_all(data).ok()
}

} // verus!
