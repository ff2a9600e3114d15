use vstd::prelude::*;

verus! {

/// Raw deflate stream that flate2 produces for the given bytes at its default level.
pub uninterp spec fn deflate_of(data: Seq<u8>) -> Seq<u8>;

/// What flate2's raw deflate decoder yields for the given bytes, `None` where it reports an error.
pub uninterp spec fn inflate_of(compressed: Seq<u8>) -> Option<Seq<u8>>;

/// CRC-32 (the gzip polynomial) of the given bytes.
pub uninterp spec fn crc32_of(data: Seq<u8>) -> u32;

/// Relies on flate2::write::DeflateEncoder at the default level: a raw deflate
/// stream of `data`, which a raw deflate decoder turns back into `data`. The
/// encoder writes into a `Vec`, whose writes do not fail.
#[verifier::external_body]
pub(crate) fn deflate(data: &[u8]) -> (r: Vec<u8>)
    ensures
        r@ == deflate_of(data@),
        inflate_of(r@) == Some(data@),
{
    let mut encoder = flate2::write::DeflateEncoder::new(Vec::new(), flate2::Compression::default());
    std::io::Write::write_all(&mut encoder, data).expect("writing into a Vec does not fail");
    encoder.finish().expect("writing into a Vec does not fail")
}

/// Relies on flate2::read::DeflateDecoder: decodes the raw deflate stream
/// `compressed` into `out`, replacing what `out` held.
#[verifier::external_body]
pub(crate) fn inflate_into(compressed: &[u8], out: &mut Vec<u8>) -> (ok: bool)
    ensures
        ok ==> inflate_of(compressed@) == Some(final(out)@),
        !ok ==> inflate_of(compressed@) is None,
{
    out.clear();
    let mut decoder = flate2::read::DeflateDecoder::new(compressed);
    std::io::Read::read_to_end(&mut decoder, out).is_ok()
}

/// Relies on flate2::Crc: the CRC-32 checksum of `data`.
#[verifier::external_body]
pub(crate) fn crc32(data: &[u8]) -> (r: u32)
    ensures
        r == crc32_of(data@),
{
    let mut crc = flate2::Crc::new();
    crc.update(data);
    crc.sum()
}

} // verus!
