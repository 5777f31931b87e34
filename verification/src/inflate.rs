//! Decompression of the zlib streams that sub-frames carry.

use miniz_oxide::inflate::{decompress_to_vec_zlib, DecompressError};
use vstd::prelude::*;

verus! {

/// `miniz_oxide::inflate::DecompressError`, the failure that decompression
/// reports. Nothing is claimed of what it holds.
#[verifier::external_type_specification]
#[verifier::external_body]
pub struct ExDecompressError(DecompressError);

/// A sub-frame's payload is no complete, well-formed zlib stream.
#[derive(Clone, Copy, Debug, PartialEq, Eq, Structural)]
pub struct DecompressionError;

/// The bytes that `miniz_oxide::inflate::decompress_to_vec_zlib` unpacks from
/// `data`, or `None` where it reports a failure.
pub uninterp spec fn zlib_inflated(data: Seq<u8>) -> Option<Seq<u8>>;

/// Calls `miniz_oxide::inflate::decompress_to_vec_zlib` on `data`. What it
/// returns depends on `data` alone; the contract gives that result its name.
#[verifier::external_body]
fn inflate_zlib(data: &[u8]) -> (r: Result<Vec<u8>, DecompressError>)
    ensures
        match r {
            Ok(bytes) => zlib_inflated(data@) == Some(bytes@),
            Err(_) => zlib_inflated(data@) is None,
        },
{
    decompress_to_vec_zlib(data)
}

/// Unpacks the zlib stream `data`.
pub fn inflate(data: &[u8]) -> (r: Result<Vec<u8>, DecompressionError>)
    ensures
        match r {
            Ok(bytes) => zlib_inflated(data@) == Some(bytes@),
            Err(_) => zlib_inflated(data@) is None,
        },
{
    match inflate_zlib(data) {
        Ok(bytes) => Ok(bytes),
        Err(_) => Err(DecompressionError),
    }
}

} // verus!
