//! The gzip codec: in-memory compression and decompression through flate2,
//! behind trusted wrappers whose results carry names the pipeline's
//! contracts speak of.

use vstd::prelude::*;

verus! {

/// What flate2's gzip encoder produces for the given bytes at the given
/// level (0-9). The encoder stamps no time (flate2 writes a zero mtime and a
/// fixed operating-system byte for reproducible streams), so the output is a
/// function of the bytes and the level alone.
pub uninterp spec fn gzip_of(data: Seq<u8>, level: int) -> Seq<u8>;

/// What gzip decompression yields from the given bytes: the original payload
/// of a valid gzip stream, nothing for bytes that are not one.
pub uninterp spec fn gunzip_of(data: Seq<u8>) -> Option<Seq<u8>>;

/// Relies on flate2's `GzEncoder` writing into an in-memory buffer: the
/// bytes are gzip-compressed at the given level, and gzip is lossless, so
/// decoding the result gives the input back. Writes to a vector cannot fail.
#[verifier::external_body]
pub fn gzip_compress(data: &Vec<u8>, level: u32) -> (r: Vec<u8>)
    requires
        level <= 9,
    ensures
        r@ == gzip_of(data@, level as int),
        gunzip_of(r@) == Option::Some(data@),
{
    let mut enc = flate2::write::GzEncoder::new(Vec::new(), flate2::Compression::new(level));
    std::io::Write::write_all(&mut enc, data.as_slice()).expect("a vec accepts all writes");
    enc.finish().expect("a vec accepts all writes")
}

/// Relies on flate2's `GzDecoder` reading from an in-memory buffer: a valid
/// gzip stream inflates to its payload, and invalid bytes are reported as an
/// error, never a panic.
#[verifier::external_body]
pub fn gzip_decompress(data: &Vec<u8>) -> (r: Option<Vec<u8>>)
    ensures
        match r {
            Option::Some(v) => gunzip_of(data@) == Option::Some(v@),
            Option::None => gunzip_of(data@) is None,
        },
{
    let mut out = Vec::new();
    let mut dec = flate2::read::GzDecoder::new(data.as_slice());
    match std::io::Read::read_to_end(&mut dec, &mut out) {
        Ok(_) => Option::Some(out),
        Err(_) => Option::None,
    }
}

} // verus!
