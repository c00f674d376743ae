//! DEFLATE streams, written and read by the `flate2` crate.
use flate2::read::DeflateDecoder;
use flate2::write::DeflateEncoder;
use flate2::Compression;
use std::io::Read;
use std::io::Write;
use vstd::prelude::*;

use crate::bytes::contents;
use crate::error::Error;

verus! {

/// What `flate2` compresses a payload into, at its best level.
pub uninterp spec fn deflated(payload: Seq<u8>) -> Result<Seq<u8>, Error>;

/// What `flate2` reads from a DEFLATE stream.
pub uninterp spec fn inflated(container: Seq<u8>) -> Result<Seq<u8>, Error>;

/// A byte whose second and third bit are both set: no DEFLATE stream begins
/// with one, since those bits name a type of block that does not exist.
pub open spec fn reserved_block(byte: u8) -> bool {
    byte & 6 == 6
}

/// Compresses with `flate2::write::DeflateEncoder` at the level
/// `flate2::Compression::best`, into a vector.
///
/// Claimed without proof: the outcome depends on the payload alone; a stream
/// is not empty and begins with a block of an existing type; and
/// `flate2::read::DeflateDecoder` reads the payload back from it. That the
/// compressor succeeds is not claimed: its source allows for failure.
#[verifier::external_body]
fn deflate(payload: &[u8]) -> (container: Result<Vec<u8>, Error>)
    ensures
        contents(container) == deflated(payload@),
        container matches Err(error) ==> error == Error::DeflateFailed,
        container matches Ok(stream) ==> {
            &&& inflated(stream@) == Ok::<Seq<u8>, Error>(payload@)
            &&& stream@.len() > 0
            &&& !reserved_block(stream@[0])
        },
{
    let mut encoder = DeflateEncoder::new(Vec::new(), Compression::best());
    match encoder.write_all(payload) {
        Ok(()) => encoder.finish().map_err(|_| Error::DeflateFailed),
        Err(_) => Err(Error::DeflateFailed),
    }
}

/// Decompresses with `flate2::read::DeflateDecoder`, to the end of the stream.
///
/// Claimed without proof: the outcome depends on the bytes alone, and where it
/// is no payload the stream is called corrupt or incomplete.
#[verifier::external_body]
pub(crate) fn inflate(container: &[u8]) -> (payload: Result<Vec<u8>, Error>)
    ensures
        contents(payload) == inflated(container@),
        payload matches Err(error) ==> error == Error::CorruptDeflate || error
            == Error::IncompleteDeflate,
{
    let mut payload = Vec::new();
    match DeflateDecoder::new(container).read_to_end(&mut payload) {
        Ok(_) => Ok(payload),
        Err(error) if error.kind() == std::io::ErrorKind::UnexpectedEof => Err(
            Error::IncompleteDeflate,
        ),
        Err(_) => Err(Error::CorruptDeflate),
    }
}

/// Compresses `payload` into a DEFLATE stream.
pub fn deflate_encode(payload: &[u8]) -> (container: Result<Vec<u8>, Error>)
    ensures
        contents(container) == deflated(payload@),
        container matches Err(error) ==> error == Error::DeflateFailed,
        container matches Ok(stream) ==> {
            &&& inflated(stream@) == Ok::<Seq<u8>, Error>(payload@)
            &&& stream@.len() > 0
            &&& !reserved_block(stream@[0])
        },
{
    deflate(payload)
}

} // verus!
