//! Gzip compression of an encoded profile.
use std::io::Write;
use vstd::prelude::*;

verus! {

/// The raw deflate stream that libflate's default encoder makes of `data`;
/// it depends on the data alone.
pub uninterp spec fn deflate_of(data: Seq<u8>) -> Seq<u8>;

/// A four-byte little-endian number.
pub open spec fn le32(b: Seq<u8>) -> int {
    b[0] + b[1] * 256 + b[2] * 65536 + b[3] * 16777216
}

/// Whether `v` is one gzip member holding `data`: the magic bytes 0x1f 0x8b,
/// method 8 (deflate), a 10-byte header, the deflate stream of `data`, and an
/// 8-byte trailer that ends with the length of `data` modulo 2^32.
pub open spec fn gzip_member_of(v: Seq<u8>, data: Seq<u8>) -> bool {
    &&& v.len() >= 18
    &&& v[0] == 0x1f && v[1] == 0x8b && v[2] == 8
    &&& v.subrange(10, v.len() - 8) == deflate_of(data)
    &&& le32(v.subrange(v.len() - 4, v.len() as int)) == data.len() % 0x1_0000_0000
}

/// Relies on libflate's `gzip::Encoder` (`new`, `write_all`, `finish`) writing
/// into a vector, which cannot fail: a header of 10 bytes (magic bytes,
/// method 8, flags 0, the current time, level and OS), the deflate stream of
/// the data, then the CRC-32 and the length of the data modulo 2^32, little-endian.
#[verifier::external_body]
fn gzip(data: &[u8]) -> (r: Vec<u8>)
    ensures
        r@.len() >= 18,
        r@[0] == 0x1f && r@[1] == 0x8b && r@[2] == 8,
        r@.subrange(10, r@.len() - 8) == deflate_of(data@),
        le32(r@.subrange(r@.len() - 4, r@.len() as int)) == data@.len() % 0x1_0000_0000,
{
    let mut encoder = libflate::gzip::Encoder::new(Vec::new()).expect("writing to a vector");
    encoder.write_all(data).expect("writing to a vector");
    encoder.finish().into_result().expect("writing to a vector")
}

/// Compresses the encoded profile message `encoded` into one gzip member.
pub fn compress_profile(encoded: &Vec<u8>) -> (r: Vec<u8>)
    ensures
        gzip_member_of(r@, encoded@),
{
    gzip(encoded.as_slice())
}

} // verus!
