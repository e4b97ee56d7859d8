//! Stream compression for chunk blobs.
//!
//! A chunk's framed slots are concatenated and compressed as one blob; the
//! blob is opaque until decompressed again. Nothing is assumed about the
//! compressed bytes themselves, only that decompression restores exactly what
//! was compressed.

use vstd::prelude::*;
use crate::error::Error;

verus! {

/// Compression level handed to the compressor; zero selects its default.
pub const COMPRESSION_LEVEL: i32 = 0;

/// What decompressing a byte string yields: `Some(data)` when decompression
/// of exactly those bytes succeeds with `data`, `None` when it fails. The
/// outcome is a function of the bytes alone.
pub uninterp spec fn decompressed(blob: Seq<u8>) -> Option<Seq<u8>>;

/// Relies on zstd::encode_all: compression is lossless, so decompressing its
/// output restores the input exactly.
#[verifier::external_body]
pub(crate) fn compress_bytes(data: &Vec<u8>) -> (r: Result<Vec<u8>, Error>)
    ensures
        r matches Ok(blob) ==> decompressed(blob@) == Some(data@),
        r matches Err(e) ==> e is Codec,
{
    match zstd::encode_all(data.as_slice(), COMPRESSION_LEVEL) {
        Ok(blob) => Ok(blob),
        Err(_) => Err(Error::codec("compressing a chunk failed")),
    }
}

/// Relies on zstd::decode_all: the outcome — the decompressed bytes, or a
/// failure — is a function of the compressed bytes alone. The whole input is
/// in memory, and an unallocatable decompression context panics rather than
/// erroring, so no error path depends on anything but the bytes.
#[verifier::external_body]
pub(crate) fn decompress_bytes(blob: &Vec<u8>) -> (r: Result<Vec<u8>, Error>)
    ensures
        r matches Ok(data) ==> decompressed(blob@) == Some(data@),
        r is Err ==> decompressed(blob@) is None,
        r matches Err(e) ==> e is Codec,
{
    match zstd::decode_all(blob.as_slice()) {
        Ok(data) => Ok(data),
        Err(_) => Err(Error::codec("decompressing a chunk failed")),
    }
}

} // verus!
