use std::io::Read;
use vstd::prelude::*;

verus! {

/// The zlib stream that flate2 produces for `b` at its fast level.
pub uninterp spec fn zlib_fast(b: Seq<u8>) -> Seq<u8>;

/// What a zlib decoder makes of `c`: the bytes, or nothing where `c` is not a valid stream.
pub uninterp spec fn zlib_inflate(c: Seq<u8>) -> Option<Seq<u8>>;

/// Decompression of bytes that no valid stream begins with.
#[derive(Debug, Clone, Copy, PartialEq, Eq, Structural)]
pub struct CorruptStream;

/// Relies on flate2's bufread::ZlibEncoder with Compression::fast, read to the end:
/// its output depends on the input bytes alone.
#[verifier::external_body]
pub fn compress(bytes: &[u8]) -> (r: Vec<u8>)
    ensures
        r@ == zlib_fast(bytes@),
{
    let mut z = flate2::bufread::ZlibEncoder::new(bytes, flate2::Compression::fast());
    let mut encoded = Vec::new();
    z.read_to_end(&mut encoded).unwrap();
    encoded
}

/// Relies on flate2's bufread::ZlibDecoder, read to the end: it is lossless on what the
/// encoder wrote, and fails on a stream that is malformed or cut short (a proper prefix of
/// what the encoder wrote).
#[verifier::external_body]
pub fn decompress(compressed: &[u8]) -> (r: Result<Vec<u8>, CorruptStream>)
    ensures
        r is Ok <==> zlib_inflate(compressed@) is Some,
        r matches Ok(v) ==> zlib_inflate(compressed@) == Some(v@),
        r matches Ok(v) ==> forall|b: Seq<u8>| #[trigger] zlib_fast(b) == compressed@ ==> v@ == b,
        r is Err ==> forall|b: Seq<u8>| #[trigger] zlib_fast(b) != compressed@,
        r is Ok ==> forall|b: Seq<u8>, k: int|
            0 <= k < zlib_fast(b).len() ==> compressed@ != #[trigger] zlib_fast(b).subrange(0, k),
{
    let mut bytes = Vec::new();
    match flate2::bufread::ZlibDecoder::new(compressed).read_to_end(&mut bytes) {
        Ok(_) => Ok(bytes),
        Err(_) => Err(CorruptStream),
    }
}

} // verus!
