//! Gzip streams.
use std::io::{Read, Write};
use vstd::prelude::*;

verus! {

/// What a gzip stream decompresses to, or the text of the error that stops it.
pub uninterp spec fn gunzipped(bytes: Seq<u8>) -> Result<Seq<u8>, Seq<char>>;

/// The bytes or the text of a result.
pub open spec fn outcome(r: Result<Vec<u8>, String>) -> Result<Seq<u8>, Seq<char>> {
    match r {
        Ok(v) => Ok(v@),
        Err(e) => Err(e@),
    }
}

/// `flate2::read::GzDecoder`, read to its end: decompresses the first gzip member of the
/// bytes. How the format is decoded is left unsaid.
#[verifier::external_body]
pub(crate) fn gunzip(bytes: &[u8]) -> (r: Result<Vec<u8>, String>)
    ensures
        outcome(r) == gunzipped(bytes@),
{
    let mut out = Vec::new();
    match flate2::read::GzDecoder::new(bytes).read_to_end(&mut out) {
        Ok(_) => Ok(out),
        Err(e) => Err(e.to_string()),
    }
}

/// `flate2::write::GzEncoder` at the default compression, finished: compresses the bytes into
/// one gzip member. It fails only where what it writes to does, which memory does not. What
/// comes out is left unsaid but for this: it decompresses to the bytes.
#[verifier::external_body]
pub(crate) fn gzip(bytes: &[u8]) -> (r: Result<Vec<u8>, String>)
    ensures
        r is Ok,
        r matches Ok(v) ==> (gunzipped(v@) == Ok::<Seq<u8>, Seq<char>>(bytes@)),
{
    let mut e = flate2::write::GzEncoder::new(Vec::new(), flate2::Compression::default());
    match e.write_all(bytes).and_then(|_| e.finish()) {
        Ok(v) => Ok(v),
        Err(e) => Err(e.to_string()),
    }
}

} // verus!
