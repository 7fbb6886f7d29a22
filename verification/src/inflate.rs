//! Zlib decompression, done by the `flate2` crate.
use std::io::Read;
use vstd::prelude::*;

verus! {

/// What `flate2` gives back when it inflates the zlib stream at the front of
/// `data` and reads it to its end: the inflated bytes, or `None` where the
/// decoder reports an error (a broken or truncated stream).
pub uninterp spec fn zlib_inflate(data: Seq<u8>) -> Option<Seq<u8>>;

/// Inflates `data` with `flate2::read::ZlibDecoder` and `Read::read_to_end`.
///
/// Trusted: the result is `Some` of the bytes read exactly where
/// `read_to_end` succeeds, which is what `zlib_inflate` names; nothing else
/// is claimed of the decoder.
#[verifier::external_body]
pub(crate) fn inflate_zlib(data: &[u8]) -> (result: Option<Vec<u8>>)
    ensures
        match result {
            Some(bytes) => zlib_inflate(data@) == Some(bytes@),
            None => zlib_inflate(data@) == None::<Seq<u8>>,
        },
{
    let mut decoder = flate2::read::ZlibDecoder::new(data);
    let mut inflated = Vec::new();
    match decoder.read_to_end(&mut inflated) {
        Ok(_) => Some(inflated),
        Err(_) => None,
    }
}

} // verus!
