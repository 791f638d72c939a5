//! Block compression.
//!
//! Each block of a run is compressed independently with DEFLATE and then
//! padded to the configured block size. A DEFLATE stream carries its own
//! end-of-stream marker, so a decoder recovers the original bytes from a
//! padded block without knowing where the padding starts.

use std::io::Read;
use std::io::Write;

use vstd::prelude::*;

verus! {

/// What the DEFLATE encoder produces for a byte sequence, at the default
/// compression level. The result depends on the input bytes alone.
pub uninterp spec fn deflate_of(data: Seq<u8>) -> Seq<u8>;

/// Relies on flate2's `write::DeflateEncoder`: compressing bytes at the
/// default level is deterministic in the input, and writing into a `Vec`
/// cannot fail.
#[verifier::external_body]
pub fn deflate_compress(data: &Vec<u8>) -> (r: Vec<u8>)
    ensures
        r@ == deflate_of(data@),
{
    let mut encoder = flate2::write::DeflateEncoder::new(
        Vec::new(),
        flate2::Compression::default(),
    );
    encoder.write_all(data).unwrap();
    encoder.finish().unwrap()
}

/// Whether `r` is what decompression owes for input `data`: whenever
/// `data` is a compressed stream followed by padding, decompression
/// succeeds and returns exactly the bytes that were compressed.
pub open spec fn inflates_to(data: Seq<u8>, r: Option<Vec<u8>>) -> bool {
    forall|orig: Seq<u8>, pad: Seq<u8>|
        data == deflate_of(orig) + pad ==> (r matches Some(v) && v@ == orig)
}

/// Relies on flate2's `read::DeflateDecoder`: reading to the end of a
/// DEFLATE stream recovers exactly the bytes that were compressed, stops
/// at the stream's own end marker, and ignores whatever padding follows.
#[verifier::external_body]
pub fn deflate_decompress(data: &Vec<u8>) -> (r: Option<Vec<u8>>)
    ensures
        inflates_to(data@, r),
{
    let mut decoder = flate2::read::DeflateDecoder::new(&data[..]);
    let mut out: Vec<u8> = Vec::new();
    match decoder.read_to_end(&mut out) {
        Ok(_) => Some(out),
        Err(_) => None,
    }
}

} // verus!
