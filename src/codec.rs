use crate::error::ObjectError;
use flate2::read::ZlibDecoder;
use flate2::write::ZlibEncoder;
use flate2::Compression;
use std::io::Read;
use std::io::Write;
use vstd::prelude::*;

verus! {

/// What zlib compression at the default level makes of a byte sequence.
pub uninterp spec fn zlib_deflate(data: Seq<u8>) -> Seq<u8>;

/// What zlib decompression makes of a byte sequence: `None` where the bytes
/// are not a valid zlib stream.
pub uninterp spec fn zlib_inflate(data: Seq<u8>) -> Option<Seq<u8>>;

/// Relies on flate2::write::ZlibEncoder at Compression::default(): writing
/// the whole input and finishing yields the zlib stream. The encoder writes
/// into a `Vec<u8>`, which cannot fail.
#[verifier::external_body]
fn zlib_compress(data: &[u8]) -> (r: Vec<u8>)
    ensures
        r@ == zlib_deflate(data@),
{
    let mut encoder = ZlibEncoder::new(Vec::new(), Compression::default());
    encoder.write_all(data).expect("writing into memory does not fail");
    encoder.finish().expect("writing into memory does not fail")
}

/// Relies on flate2::read::ZlibDecoder and `read_to_end`: a valid zlib
/// stream decodes to the bytes it was made from; anything else is an error.
#[verifier::external_body]
fn zlib_decompress(data: &[u8]) -> (r: Option<Vec<u8>>)
    ensures
        r is Some <==> zlib_inflate(data@) is Some,
        r is Some ==> zlib_inflate(data@) == Some(r->0@),
        forall|x: Seq<u8>| data@ == zlib_deflate(x) ==> r is Some && r->0@ == x,
{
    let mut decoder = ZlibDecoder::new(data);
    let mut out: Vec<u8> = Vec::new();
    match decoder.read_to_end(&mut out) {
        Ok(_) => Some(out),
        Err(_) => None,
    }
}

/// Compresses a byte buffer into a zlib stream.
pub fn compress(data: &[u8]) -> (r: Vec<u8>)
    ensures
        r@ == zlib_deflate(data@),
{
    zlib_compress(data)
}

/// Decompresses a zlib stream. Whatever `compress` produced comes back
/// unchanged, the empty buffer included.
pub fn decompress(data: &[u8]) -> (r: Result<Vec<u8>, ObjectError>)
    ensures
        r is Ok <==> zlib_inflate(data@) is Some,
        r is Ok ==> zlib_inflate(data@) == Some(r->Ok_0@),
        r is Err ==> r->Err_0 == ObjectError::CorruptData,
        forall|x: Seq<u8>| data@ == zlib_deflate(x) ==> r is Ok && r->Ok_0@ == x,
{
    match zlib_decompress(data) {
        Some(v) => Ok(v),
        None => Err(ObjectError::CorruptData),
    }
}

} // verus!
