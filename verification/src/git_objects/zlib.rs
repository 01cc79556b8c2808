use vstd::prelude::*;

use crate::GitError;
use std::io::{Read, Write};

verus! {

/// The zlib stream this library's compressor writes for a payload: a
/// function of the payload bytes alone (one compressor, default level, no
/// dictionary).
pub uninterp spec fn deflate_of(b: Seq<u8>) -> Seq<u8>;

/// The payload a zlib stream inflates to, for streams the decoder accepts: a
/// function of the stream bytes alone.
pub uninterp spec fn inflate_of(b: Seq<u8>) -> Seq<u8>;

/// Relies on flate2::write::ZlibEncoder at the default compression level:
/// the stream it writes depends on the input bytes alone, and writing into
/// an in-memory `Vec` sink cannot fail — the encoder's error paths are the
/// sink's own write errors, which a `Vec` never produces, and a backend
/// error for invalid parameters, which the default level is not.
#[verifier::external_body]
fn zlib_deflate(data: &[u8]) -> (r: Vec<u8>)
    ensures
        r@ == deflate_of(data@),
{
    let mut encoder = flate2::write::ZlibEncoder::new(Vec::new(), flate2::Compression::default());
    encoder.write_all(data).expect("writing into a Vec sink cannot fail");
    encoder.finish().expect("finishing into a Vec sink cannot fail")
}

/// Relies on flate2::read::ZlibDecoder: inflating a stream is a function of
/// the stream bytes alone, and a stream written by the matching encoder
/// inflates back to the bytes it was written from.
#[verifier::external_body]
fn zlib_inflate(data: &[u8]) -> (r: Option<Vec<u8>>)
    ensures
        r matches Some(out) ==> out@ == inflate_of(data@),
        r is None ==> forall|b: Seq<u8>| data@ != #[trigger] deflate_of(b),
        r matches Some(out) ==> forall|b: Seq<u8>| data@ == #[trigger] deflate_of(b) ==> out@ == b,
{
    let mut decoder = flate2::read::ZlibDecoder::new(data);
    let mut out = Vec::new();
    match decoder.read_to_end(&mut out) {
        Ok(_) => Some(out),
        Err(_) => None,
    }
}

/// Compresses a payload for storage. Total: every payload compresses.
pub fn compress(data: &[u8]) -> (r: Vec<u8>)
    ensures
        r@ == deflate_of(data@),
{
    zlib_deflate(data)
}

/// Decompresses a stored stream. Every stream written by `compress` comes
/// back as the payload it was written from; a malformed stream fails with
/// `Corruption`.
pub fn decompress(data: &[u8]) -> (r: Result<Vec<u8>, GitError>)
    ensures
        r matches Ok(out) ==> out@ == inflate_of(data@),
        r is Err ==> forall|b: Seq<u8>| data@ != #[trigger] deflate_of(b),
        r matches Ok(out) ==> forall|b: Seq<u8>| data@ == #[trigger] deflate_of(b) ==> out@ == b,
        r is Err ==> r == Err::<Vec<u8>, GitError>(GitError::Corruption),
{
    match zlib_inflate(data) {
        Some(out) => Ok(out),
        None => Err(GitError::Corruption),
    }
}

} // verus!
