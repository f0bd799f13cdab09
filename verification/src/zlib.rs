//! The compression envelope of stored objects: zlib streams.

use crate::error::ObjectError;
use flate2::read::ZlibDecoder;
use flate2::write::ZlibEncoder;
use flate2::Compression;
use std::io::Read;
use std::io::Write;
use vstd::prelude::*;

verus! {

/// What reading `stream` to its end through `flate2::read::ZlibDecoder`
/// gives: the decompressed bytes, or nothing where the decoder reports an
/// error (a bad header, a truncated stream, a checksum that does not match).
pub uninterp spec fn zlib_inflate(stream: Seq<u8>) -> Option<Seq<u8>>;

/// What a `flate2::write::ZlibEncoder` at the default level writes into a
/// vector for `data`, from `new` through `write_all` to `finish`: the
/// finished stream, or nothing where the encoder reports an error.
pub uninterp spec fn zlib_deflate(data: Seq<u8>) -> Option<Seq<u8>>;

/// Writes `data` through a `flate2::write::ZlibEncoder` at the default level
/// into a vector and finishes the stream. Trusted: the outcome depends on
/// `data` alone and is named `zlib_deflate(data)`; and a stream that comes
/// back decompresses to exactly `data`. Whether the encoder can report an
/// error here is not claimed either way.
#[verifier::external_body]
fn deflate(data: &[u8]) -> (stream: Option<Vec<u8>>)
    ensures
        match stream {
            Some(s) => zlib_deflate(data@) == Some(s@) && zlib_inflate(s@) == Some(data@),
            None => zlib_deflate(data@) is None,
        },
{
    let mut encoder = ZlibEncoder::new(Vec::new(), Compression::default());
    encoder.write_all(data).ok()?;
    encoder.finish().ok()
}

/// Reads `stream` to its end through a `flate2::read::ZlibDecoder`. Trusted:
/// the outcome depends on `stream` alone and is named `zlib_inflate(stream)`.
#[verifier::external_body]
fn inflate(stream: &[u8]) -> (data: Option<Vec<u8>>)
    ensures
        match data {
            Some(d) => zlib_inflate(stream@) == Some(d@),
            None => zlib_inflate(stream@) is None,
        },
{
    let mut decoder = ZlibDecoder::new(stream);
    let mut data = Vec::new();
    match decoder.read_to_end(&mut data) {
        Ok(_) => Some(data),
        Err(_) => None,
    }
}

/// Compresses `bytes` into a zlib stream at the default level.
///
/// The stream is the one that the encoder writes for `bytes`, the same every
/// time, and it decompresses to exactly `bytes`. Fails with `IoError` exactly
/// when the encoder reports a failure.
pub fn compress(bytes: &[u8]) -> (stream: Result<Vec<u8>, ObjectError>)
    ensures
        match stream {
            Ok(s) => zlib_deflate(bytes@) == Some(s@) && zlib_inflate(s@) == Some(bytes@),
            Err(e) => zlib_deflate(bytes@) is None && e == ObjectError::IoError,
        },
{
    match deflate(bytes) {
        Some(stream) => Ok(stream),
        None => Err(ObjectError::IoError),
    }
}

/// Decompresses a zlib stream.
///
/// Fails with `CorruptStream` exactly when `stream` is not a valid zlib
/// stream.
pub fn decompress(stream: &[u8]) -> (bytes: Result<Vec<u8>, ObjectError>)
    ensures
        match bytes {
            Ok(b) => zlib_inflate(stream@) == Some(b@),
            Err(e) => zlib_inflate(stream@) is None && e == ObjectError::CorruptStream,
        },
{
    match inflate(stream) {
        Some(bytes) => Ok(bytes),
        None => Err(ObjectError::CorruptStream),
    }
}

} // verus!
