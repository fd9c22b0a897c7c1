//! The compression adapter: a pure byte-stream transform around the store's
//! on-disk form, with no knowledge of object semantics.
use vstd::prelude::*;

verus! {

/// What the zlib decoder yields when handed a byte string and drained fully:
/// the decompressed bytes, or nothing when the stream is truncated or
/// malformed. The outcome is fixed by the input bytes alone.
pub uninterp spec fn zlib_inflate(b: Seq<u8>) -> Option<Seq<u8>>;

/// Relies on flate2's `write::ZlibEncoder` over an in-memory buffer: encoding
/// into a `Vec` cannot fail (the underlying writer never errors), and
/// decoding the encoder's output yields the input bytes again.
#[verifier::external_body]
pub(crate) fn compress(data: &[u8]) -> (r: Vec<u8>)
    ensures
        zlib_inflate(r@) == Some(data@),
{
    let mut e = flate2::write::ZlibEncoder::new(Vec::new(), flate2::Compression::default());
    std::io::Write::write_all(&mut e, data).expect("writing into a buffer cannot fail");
    e.finish().expect("finishing an in-memory stream cannot fail")
}

/// Relies on flate2's `read::ZlibDecoder`, drained to the end: it yields the
/// full decompressed stream, and errors exactly on truncated or malformed
/// input.
#[verifier::external_body]
pub(crate) fn decompress(data: &[u8]) -> (r: Option<Vec<u8>>)
    ensures
        match r {
            Some(v) => zlib_inflate(data@) == Some(v@),
            None => zlib_inflate(data@) is None,
        },
{
    let mut z = flate2::read::ZlibDecoder::new(data);
    let mut out: Vec<u8> = Vec::new();
    match std::io::Read::read_to_end(&mut z, &mut out) {
        Ok(_) => Some(out),
        Err(_) => None,
    }
}

} // verus!
