//! The zlib stream and CRC-32 computations of flate2 that the archive formats rely on.
use vstd::prelude::*;

verus! {

/// Names the CRC-32 checksum that `flate2::Crc` computes over a byte sequence.
pub uninterp spec fn crc32_of(data: Seq<u8>) -> u32;

/// Names the bytes that `flate2::read::ZlibDecoder` reads out of a zlib stream, or `None` when
/// the stream is malformed or cut short.
pub uninterp spec fn zlib_inflated(data: Seq<u8>) -> Option<Seq<u8>>;

/// Names the text of the `io::Error` that `flate2::read::ZlibDecoder` gives for a stream it
/// cannot read (such as "corrupt deflate stream").
pub uninterp spec fn zlib_error_text(data: Seq<u8>) -> Seq<char>;

/// Names the zlib stream that `flate2::write::ZlibEncoder` at compression level 9 writes for a
/// byte sequence.
pub uninterp spec fn zlib_deflated(data: Seq<u8>) -> Seq<u8>;

/// Computes the CRC-32 of `data` with a fresh `flate2::Crc` (`new`, one `update`, `sum`); the
/// result is named [`crc32_of`].
#[verifier::external_body]
pub(crate) fn crc32(data: &[u8]) -> (r: u32)
    ensures
        r == crc32_of(data@),
{
    let mut crc = flate2::Crc::new();
    crc.update(data);
    crc.sum()
}

/// Reads a whole zlib stream with `flate2::read::ZlibDecoder::read_to_end`. The bytes read are
/// named [`zlib_inflated`]; on failure the error's text, named [`zlib_error_text`], is returned.
#[verifier::external_body]
pub(crate) fn zlib_decompress(data: &[u8]) -> (r: Result<Vec<u8>, String>)
    ensures
        r matches Ok(v) ==> zlib_inflated(data@) == Some(v@),
        r is Err ==> zlib_inflated(data@) is None,
        r matches Err(m) ==> m@ == zlib_error_text(data@),
{
    let mut out = Vec::new();
    match std::io::Read::read_to_end(&mut flate2::read::ZlibDecoder::new(data), &mut out) {
        Ok(_) => Ok(out),
        Err(e) => Err(e.to_string()),
    }
}

/// Compresses `data` with `flate2::write::ZlibEncoder` at `Compression::new(9)` (`write_all`,
/// then `finish`). The stream is named [`zlib_deflated`]; zlib compression is lossless, so
/// decompressing it gives `data` back. Writing into a `Vec` never fails and the compressor
/// reports an error only for a corrupted internal state, so the call succeeds; the error arm
/// only carries the `io::Error` type through.
#[verifier::external_body]
pub(crate) fn zlib_compress(data: &[u8]) -> (r: Result<Vec<u8>, String>)
    ensures
        r is Ok,
        r matches Ok(c) ==> c@ == zlib_deflated(data@) && zlib_inflated(c@) == Some(data@),
{
    let mut encoder = flate2::write::ZlibEncoder::new(Vec::new(), flate2::Compression::new(9));
    if let Err(e) = std::io::Write::write_all(&mut encoder, data) {
        return Err(e.to_string());
    }
    match encoder.finish() {
        Ok(c) => Ok(c),
        Err(e) => Err(e.to_string()),
    }
}

} // verus!
