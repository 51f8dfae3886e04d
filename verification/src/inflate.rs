//! Zlib decompression, behind one call into the decoder.

use crate::error::{KError, KResult};
use flate2::read::ZlibDecoder;
use std::io::Read;
use vstd::prelude::*;

verus! {

/// What decompressing `bytes` as a zlib stream gives: the decompressed bytes,
/// or the text of the decoder's failure.
pub uninterp spec fn zlib_inflated(bytes: Seq<u8>) -> Result<Seq<u8>, Seq<char>>;

/// `flate2::read::ZlibDecoder::new` over `bytes`, drained with
/// `std::io::Read::read_to_end`. The outcome depends on `bytes` alone; the
/// contract gives it its name and says nothing of what it holds.
#[verifier::external_body]
fn inflate(bytes: &[u8]) -> (r: Result<Vec<u8>, String>)
    ensures
        match r {
            Ok(v) => zlib_inflated(bytes@) matches Ok(s) && s == v@,
            Err(t) => zlib_inflated(bytes@) matches Err(s) && s == t@,
        },
{
    let mut out = Vec::new();
    match ZlibDecoder::new(bytes).read_to_end(&mut out) {
        Ok(_) => Ok(out),
        Err(e) => Err(e.to_string()),
    }
}

/// Turns what the decoder gave into the runtime's result: the bytes as they
/// are, a failure as `IoError` with the decoder's text.
pub fn inflate_outcome(raw: Result<Vec<u8>, String>) -> (r: KResult<Vec<u8>>)
    ensures
        match raw {
            Ok(v) => r matches Ok(w) && w == v,
            Err(t) => r matches Err(KError::IoError { desc }) && desc == t,
        },
{
    match raw {
        Ok(v) => Ok(v),
        Err(t) => Err(KError::IoError { desc: t }),
    }
}

/// Decompresses a zlib stream to its end. A stream that the decoder rejects
/// is an `IoError` that carries the decoder's text.
pub fn zlib_decompress(bytes: &[u8]) -> (r: KResult<Vec<u8>>)
    ensures
        match zlib_inflated(bytes@) {
            Ok(s) => r matches Ok(v) && v@ == s,
            Err(t) => r matches Err(KError::IoError { desc }) && desc@ == t,
        },
{
    inflate_outcome(inflate(bytes))
}

} // verus!
