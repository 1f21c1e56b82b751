//! Compression of stored objects.
//!
//! Objects are stored as zlib streams. The streams are produced and read by the
//! `flate2` crate and are not verified here: this module names what the two
//! directions compute and trusts that reading undoes writing.

use flate2::read::{ZlibDecoder, ZlibEncoder};
use flate2::Compression;
use std::io::Read;
use vstd::prelude::*;

verus! {

/// An I/O error of the standard library. Its content is opaque here.
#[verifier::external_type_specification]
#[verifier::external_body]
pub struct ExIoError(std::io::Error);

/// What `flate2` reads out of `stream` as a zlib stream, or `None` where it
/// reports the stream as truncated or corrupt.
pub uninterp spec fn zlib_inflate(stream: Seq<u8>) -> Option<Seq<u8>>;

/// The zlib stream that `flate2` writes for `data` at its fastest level, or
/// `None` where it reports a failure.
pub uninterp spec fn zlib_deflate(data: Seq<u8>) -> Option<Seq<u8>>;

/// Decompresses `stream` by reading a `flate2::read::ZlibDecoder` to its end.
///
/// Trusted: whether the decoder succeeds, and what it produces if it does,
/// depends on `stream` alone. Where it fails, its error is handed on, and
/// whatever it had produced until then is dropped.
#[verifier::external_body]
pub(crate) fn inflate(stream: &[u8]) -> (data: Result<Vec<u8>, std::io::Error>)
    ensures
        data is Ok <==> zlib_inflate(stream@) is Some,
        data matches Ok(d) ==> zlib_inflate(stream@) == Some(d@),
{
    let mut decoder = ZlibDecoder::new(stream);
    let mut data = Vec::new();
    match decoder.read_to_end(&mut data) {
        Ok(_) => Ok(data),
        Err(error) => Err(error),
    }
}

/// Compresses `data` by reading a `flate2::read::ZlibEncoder` at
/// `Compression::fast()` to its end.
///
/// Trusted: whether the encoder succeeds, and what it produces if it does,
/// depends on `data` alone; and a stream that the encoder produced
/// decompresses to exactly the bytes it was given. Where it fails, its error
/// is handed on.
#[verifier::external_body]
pub(crate) fn deflate(data: &[u8]) -> (stream: Result<Vec<u8>, std::io::Error>)
    ensures
        stream is Ok <==> zlib_deflate(data@) is Some,
        stream matches Ok(s) ==> zlib_deflate(data@) == Some(s@) && zlib_inflate(s@) == Some(
            data@,
        ),
{
    let mut encoder = ZlibEncoder::new(data, Compression::fast());
    let mut stream = Vec::new();
    match encoder.read_to_end(&mut stream) {
        Ok(_) => Ok(stream),
        Err(error) => Err(error),
    }
}

/// The words of an error, from `to_string` of the standard library.
///
/// Trusted, with nothing claimed of the text returned.
#[verifier::external_body]
pub(crate) fn error_text(error: &std::io::Error) -> (text: String) {
    error.to_string()
}

} // verus!
