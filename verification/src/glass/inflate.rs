//! Compressed tags.

use crate::error::Error;
use flate2::read::DeflateDecoder;
use std::io::Read;
use vstd::prelude::*;

verus! {

/// What `flate2::read::DeflateDecoder` makes of a raw DEFLATE stream: the bytes that it
/// decompresses to or, where it cannot be decompressed, whether that is because the
/// input ends inside the stream.
pub uninterp spec fn inflated(raw: Seq<u8>) -> Result<Seq<u8>, bool>;

/// Reads `flate2::read::DeflateDecoder` over `raw` to its end. The result is taken to
/// depend on the bytes of `raw` alone; which stream decompresses to what is left to
/// flate2. A failure carries whether flate2 reported an unexpected end of the input.
#[verifier::external_body]
fn inflate(raw: &[u8]) -> (r: Result<Vec<u8>, bool>)
    ensures
        match inflated(raw@) {
            Ok(data) => r matches Ok(out) && out@ == data,
            Err(incomplete) => r == Err::<Vec<u8>, bool>(incomplete),
        },
{
    let mut out: Vec<u8> = Vec::new();
    match DeflateDecoder::new(raw).read_to_end(&mut out) {
        Ok(_) => Ok(out),
        Err(e) => Err(e.kind() == std::io::ErrorKind::UnexpectedEof),
    }
}

/// The tag that the stored bytes `raw` stand for.
pub open spec fn unpacked(raw: Seq<u8>, compressed: bool) -> Result<Seq<u8>, Error> {
    if compressed {
        deflate_outcome(inflated(raw))
    } else {
        Ok(raw)
    }
}

/// A decompression outcome in the terms of this library.
pub open spec fn deflate_outcome(r: Result<Seq<u8>, bool>) -> Result<Seq<u8>, Error> {
    match r {
        Ok(data) => Ok(data),
        Err(true) => Err(Error::DeflateIncomplete),
        Err(false) => Err(Error::DeflateCorrupt),
    }
}

/// Turn a decompression outcome into a tag.
pub fn finish_inflate(r: Result<Vec<u8>, bool>) -> (tag: Result<Vec<u8>, Error>)
    ensures
        match r {
            Ok(data) => tag matches Ok(out) && out@ == data@,
            Err(true) => tag == Err::<Vec<u8>, Error>(Error::DeflateIncomplete),
            Err(false) => tag == Err::<Vec<u8>, Error>(Error::DeflateCorrupt),
        },
{
    match r {
        Ok(data) => Ok(data),
        Err(true) => Err(Error::DeflateIncomplete),
        Err(false) => Err(Error::DeflateCorrupt),
    }
}

/// Raw DEFLATE decompression (no zlib header).
pub fn decompress_deflate(raw: &[u8]) -> (r: Result<Vec<u8>, Error>)
    ensures
        match unpacked(raw@, true) {
            Ok(data) => r matches Ok(out) && out@ == data,
            Err(e) => r == Err::<Vec<u8>, Error>(e),
        },
{
    finish_inflate(inflate(raw))
}

} // verus!
