//! The stream compressor, an outside collaborator: a generic lossless
//! DEFLATE codec from the flate2 crate, used as the final stage of
//! encoding and the first stage of decoding. The codec itself is trusted
//! against flate2's documentation; everything around it is verified.

use vstd::prelude::*;

use std::io::Write;
use flate2::Compression;
use flate2::write::DeflateDecoder;
use flate2::write::DeflateEncoder;
use crate::CodecError;

verus! {

/// The DEFLATE compression of a byte sequence at the highest compression
/// level: a deterministic function of the input bytes alone.
pub uninterp spec fn deflate_of(data: Seq<u8>) -> Seq<u8>;

/// Relies on flate2's `DeflateEncoder` at `Compression::best`: lossless
/// compression whose output is deterministic for identical input. Writing
/// into an in-memory `Vec` sink cannot fail, so `finish` always succeeds
/// here.
#[verifier::external_body]
pub(crate) fn deflate_bytes(data: &Vec<u8>) -> (r: Vec<u8>)
    ensures
        r@ == deflate_of(data@),
{
    let mut encoder = DeflateEncoder::new(Vec::new(), Compression::best());
    encoder.write_all(data).expect("an in-memory sink accepts all writes");
    encoder.finish().expect("an in-memory sink accepts all writes")
}

/// Relies on flate2's `DeflateDecoder`: DEFLATE is lossless, so
/// decompressing the compression of any byte sequence succeeds and
/// returns exactly that sequence; input that is not a valid stream makes
/// `write_all` or `finish` fail, which surfaces as a corrupt stream and
/// never as silent partial data.
#[verifier::external_body]
pub(crate) fn inflate_bytes(data: &Vec<u8>) -> (r: Result<Vec<u8>, CodecError>)
    ensures
        forall|x: Seq<u8>| data@ == #[trigger] deflate_of(x) ==> r is Ok && r->Ok_0@ == x,
        r is Err ==> r->Err_0 == CodecError::CorruptStream,
{
    let mut decoder = DeflateDecoder::new(Vec::new());
    match decoder.write_all(data) {
        Ok(()) => match decoder.finish() {
            Ok(out) => Ok(out),
            Err(_) => Err(CodecError::CorruptStream),
        },
        Err(_) => Err(CodecError::CorruptStream),
    }
}

} // verus!
