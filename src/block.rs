use vstd::prelude::*;

use crate::deflate::{crc32, crc32_of, deflate, deflate_of, inflate_into, inflate_of};
use crate::error::BgzfError;
use vstd::slice::slice_subrange;

verus! {

/// Length of the fixed block header.
pub const HEADER_LEN: usize = 18;

/// Length of the block trailer (checksum and uncompressed length).
pub const TRAILER_LEN: usize = 8;

/// Largest uncompressed payload of one block, and largest on-wire block.
pub const MAX_BLOCK_SIZE: usize = 65536;

/// Length of the terminator block.
pub const TERMINATOR_LEN: usize = 28;

/// Little-endian 16-bit value at `i`.
pub open spec fn le16(b: Seq<u8>, i: int) -> int {
    b[i] + 256 * b[i + 1]
}

/// Little-endian 32-bit value at `i`.
pub open spec fn le32(b: Seq<u8>, i: int) -> int {
    b[i] + 256 * b[i + 1] + 0x1_0000 * b[i + 2] + 0x100_0000 * b[i + 3]
}

/// The two little-endian bytes of `v`.
pub open spec fn le16_bytes(v: int) -> Seq<u8> {
    seq![(v % 256) as u8, (v / 256) as u8]
}

/// The four little-endian bytes of `v`.
pub open spec fn le32_bytes(v: int) -> Seq<u8> {
    seq![(v % 256) as u8, ((v / 256) % 256) as u8, ((v / 0x1_0000) % 256) as u8, (v / 0x100_0000) as u8]
}

/// The fixed header fields at `i`: gzip magic, deflate method, the
/// extra-field flag, and one two-byte `BC` subfield.
pub open spec fn header_ok(b: Seq<u8>, i: int) -> bool {
    &&& b[i] == 31
    &&& b[i + 1] == 139
    &&& b[i + 2] == 8
    &&& b[i + 3] == 4
    &&& le16(b, i + 10) == 6
    &&& b[i + 12] == 66
    &&& b[i + 13] == 67
    &&& le16(b, i + 14) == 2
}

/// The header of a block whose total size is `size_minus_one + 1`.
pub open spec fn header_bytes(size_minus_one: int) -> Seq<u8> {
    seq![31u8, 139, 8, 4, 0, 0, 0, 0, 0, 255, 6, 0, 66, 67, 2, 0] + le16_bytes(size_minus_one)
}

/// The on-wire bytes of one block holding `data`.
pub open spec fn block_bytes(data: Seq<u8>) -> Seq<u8> {
    let c = deflate_of(data);
    header_bytes(c.len() + 25 as int) + c + le32_bytes(crc32_of(data) as int) + le32_bytes(
        data.len() as int,
    )
}

/// The fixed encoding of an empty block that closes a stream.
pub open spec fn terminator_bytes() -> Seq<u8> {
    header_bytes(27) + seq![3u8, 0, 0, 0, 0, 0, 0, 0, 0, 0]
}

/// The outcome of decoding the block that starts at some position.
pub enum Parsed {
    /// No bytes are left: the stream ends here.
    End,
    /// The bytes there are not a well-formed block.
    Bad(BgzfError),
    /// A block with this decompressed data; the next block starts at the position given.
    Block(Seq<u8>, int),
}

/// The block that starts at `pos` in `s`. With `verify`, the trailer's
/// checksum and length must match the decompressed data.
pub open spec fn parse_block(s: Seq<u8>, pos: int, verify: bool) -> Parsed {
    if pos >= s.len() {
        Parsed::End
    } else if s.len() - pos < HEADER_LEN {
        Parsed::Bad(BgzfError::Truncated)
    } else if !header_ok(s, pos) {
        Parsed::Bad(BgzfError::Framing)
    } else {
        let size = le16(s, pos + 16) + 1;
        if size < HEADER_LEN + TRAILER_LEN {
            Parsed::Bad(BgzfError::Framing)
        } else if s.len() - pos < size {
            Parsed::Bad(BgzfError::Truncated)
        } else {
            match inflate_of(s.subrange(pos + 18, pos + size - 8)) {
                None => Parsed::Bad(BgzfError::Framing),
                Some(d) => {
                    if d.len() > MAX_BLOCK_SIZE {
                        Parsed::Bad(BgzfError::Framing)
                    } else if verify && (le32(s, pos + size - 8) != crc32_of(d) as int || le32(
                        s,
                        pos + size - 4,
                    ) != d.len()) {
                        Parsed::Bad(BgzfError::Integrity)
                    } else {
                        Parsed::Block(d, pos + size)
                    }
                },
            }
        }
    }
}

fn read_le16(b: &[u8], i: usize) -> (r: u16)
    requires
        i + 1 < b@.len(),
    ensures
        r == le16(b@, i as int),
{
    b[i] as u16 + 256 * (b[i + 1] as u16)
}

fn read_le32(b: &[u8], i: usize) -> (r: u32)
    requires
        i + 3 < b@.len(),
    ensures
        r == le32(b@, i as int),
{
    b[i] as u32 + 256 * (b[i + 1] as u32) + 0x1_0000 * (b[i + 2] as u32) + 0x100_0000 * (b[i
        + 3] as u32)
}

fn push_le32(out: &mut Vec<u8>, v: u32)
    ensures
        final(out)@ == old(out)@ + le32_bytes(v as int),
{
    out.push((v % 256) as u8);
    out.push(((v / 256) % 256) as u8);
    out.push(((v / 0x1_0000) % 256) as u8);
    out.push((v / 0x100_0000) as u8);
    assert(final(out)@ =~= old(out)@ + le32_bytes(v as int));
}

proof fn lemma_le16_bytes(v: int)
    requires
        0 <= v < 0x1_0000,
    ensures
        le16(le16_bytes(v), 0) == v,
{
}

proof fn lemma_le32_bytes(v: int)
    requires
        0 <= v <= u32::MAX,
    ensures
        le32(le32_bytes(v), 0) == v,
{
    let b = le32_bytes(v);
    assert(b[0] == v % 256);
    assert(b[1] == (v / 256) % 256);
    assert(b[2] == (v / 0x1_0000) % 256);
    assert(b[3] == v / 0x100_0000);
    assert(v / 0x1_0000 == (v / 256) / 256) by {
        vstd::arithmetic::div_mod::lemma_div_denominator(v, 256, 256);
    }
    assert(v / 0x100_0000 == (v / 0x1_0000) / 256) by {
        vstd::arithmetic::div_mod::lemma_div_denominator(v, 0x1_0000, 256);
    }
}

/// Checks the header at `pos` and returns the declared total block size.
fn header_size(src: &[u8], pos: usize) -> (r: usize)
    requires
        pos + HEADER_LEN <= src@.len(),
    ensures
        header_ok(src@, pos as int) ==> r == le16(src@, pos as int + 16) + 1,
        !header_ok(src@, pos as int) ==> r == 0,
{
    if src[pos] == 31 && src[pos + 1] == 139 && src[pos + 2] == 8 && src[pos + 3] == 4
        && read_le16(src, pos + 10) == 6 && src[pos + 12] == 66 && src[pos + 13] == 67
        && read_le16(src, pos + 14) == 2 {
        read_le16(src, pos + 16) as usize + 1
    } else {
        0
    }
}

/// The total on-wire size that the header at the start of `header` declares,
/// for a reader that fetches a block's remaining bytes once it knows their
/// number.
pub fn header_block_size(header: &[u8]) -> (r: Result<usize, BgzfError>)
    ensures
        header@.len() < HEADER_LEN ==> r == Err::<usize, BgzfError>(BgzfError::Truncated),
        header@.len() >= HEADER_LEN && !header_ok(header@, 0) ==> r == Err::<usize, BgzfError>(
            BgzfError::Framing,
        ),
        header@.len() >= HEADER_LEN && header_ok(header@, 0) && le16(header@, 16) + 1 < HEADER_LEN
            + TRAILER_LEN ==> r == Err::<usize, BgzfError>(BgzfError::Framing),
        header@.len() >= HEADER_LEN && header_ok(header@, 0) && le16(header@, 16) + 1 >= HEADER_LEN
            + TRAILER_LEN ==> r == Ok::<usize, BgzfError>((le16(header@, 16) + 1) as usize),
{
    if header.len() < HEADER_LEN {
        return Err(BgzfError::Truncated);
    }
    let size = header_size(header, 0);
    if size < HEADER_LEN + TRAILER_LEN {
        return Err(BgzfError::Framing);
    }
    Ok(size)
}

/// Decodes the block that starts at `pos` of `src` into `out`, which is
/// overwritten. Returns the block's total on-wire size, or `None` where no
/// bytes are left.
pub fn decode_block(src: &[u8], pos: usize, verify: bool, out: &mut Vec<u8>) -> (r: Result<
    Option<usize>,
    BgzfError,
>)
    ensures
        match parse_block(src@, pos as int, verify) {
            Parsed::End => r == Ok::<Option<usize>, BgzfError>(None) && final(out)@ == old(
                out,
            )@,
            Parsed::Bad(e) => r == Err::<Option<usize>, BgzfError>(e),
            Parsed::Block(d, next) => r == Ok::<Option<usize>, BgzfError>(
                Some((next - pos) as usize),
            ) && final(out)@ == d && pos + HEADER_LEN + TRAILER_LEN <= next <= src@.len(),
        },
{
    if pos >= src.len() {
        return Ok(None);
    }
    if src.len() - pos < HEADER_LEN {
        return Err(BgzfError::Truncated);
    }
    let size = header_size(src, pos);
    if size == 0 {
        return Err(BgzfError::Framing);
    }
    if size < HEADER_LEN + TRAILER_LEN {
        return Err(BgzfError::Framing);
    }
    if src.len() - pos < size {
        return Err(BgzfError::Truncated);
    }
    let payload = slice_subrange(src, pos + 18, pos + size - 8);
    if !inflate_into(payload, out) {
        return Err(BgzfError::Framing);
    }
    if out.len() > MAX_BLOCK_SIZE {
        return Err(BgzfError::Framing);
    }
    if verify {
        let crc = read_le32(src, pos + size - 8);
        let len = read_le32(src, pos + size - 4);
        if crc != crc32(out.as_slice()) || len as usize != out.len() {
            return Err(BgzfError::Integrity);
        }
    }
    Ok(Some(size))
}

/// The on-wire bytes of a block around an already compressed payload, with
/// the given checksum and uncompressed length in its trailer. A payload too
/// large for the 16-bit size field is a framing error.
pub fn frame_block(compressed: &[u8], crc: u32, len: u32) -> (r: Result<Vec<u8>, BgzfError>)
    ensures
        compressed@.len() + HEADER_LEN + TRAILER_LEN > MAX_BLOCK_SIZE ==> r == Err::<
            Vec<u8>,
            BgzfError,
        >(BgzfError::Framing),
        compressed@.len() + HEADER_LEN + TRAILER_LEN <= MAX_BLOCK_SIZE ==> (r matches Ok(b)
            && b@ == header_bytes(compressed@.len() + 25 as int) + compressed@ + le32_bytes(
            crc as int,
        ) + le32_bytes(len as int)),
{
    if compressed.len() > MAX_BLOCK_SIZE - HEADER_LEN - TRAILER_LEN {
        return Err(BgzfError::Framing);
    }
    let size_minus_one: u16 = (compressed.len() + 25) as u16;
    let mut out: Vec<u8> = vec![31u8, 139, 8, 4, 0, 0, 0, 0, 0, 255, 6, 0, 66, 67, 2, 0];
    out.push((size_minus_one % 256) as u8);
    out.push((size_minus_one / 256) as u8);
    let ghost head = out@;
    assert(head =~= header_bytes(compressed@.len() + 25 as int));
    let mut i: usize = 0;
    while i < compressed.len()
        invariant
            i <= compressed@.len(),
            out@ =~= head + compressed@.subrange(0, i as int),
        decreases compressed@.len() - i,
    {
        out.push(compressed[i]);
        i = i + 1;
        assert(out@ =~= head + compressed@.subrange(0, i as int));
    }
    assert(compressed@.subrange(0, compressed@.len() as int) =~= compressed@);
    push_le32(&mut out, crc);
    push_le32(&mut out, len);
    Ok(out)
}

/// Encodes `data` as one block. Data longer than the largest payload is a
/// caller error; a compressed form too large for the 16-bit size field is a
/// framing error.
pub fn encode_block(data: &[u8]) -> (r: Result<Vec<u8>, BgzfError>)
    ensures
        data@.len() > MAX_BLOCK_SIZE ==> r == Err::<Vec<u8>, BgzfError>(BgzfError::Contract),
        data@.len() <= MAX_BLOCK_SIZE && deflate_of(data@).len() + HEADER_LEN + TRAILER_LEN
            > MAX_BLOCK_SIZE ==> r == Err::<Vec<u8>, BgzfError>(BgzfError::Framing),
        data@.len() <= MAX_BLOCK_SIZE && deflate_of(data@).len() + HEADER_LEN + TRAILER_LEN
            <= MAX_BLOCK_SIZE ==> r is Ok,
        r matches Ok(b) ==> b@ == block_bytes(data@),
        r matches Ok(b) ==> forall|verify: bool|
            parse_block(b@, 0, verify) == Parsed::Block(data@, b@.len() as int),
{
    if data.len() > MAX_BLOCK_SIZE {
        return Err(BgzfError::Contract);
    }
    let compressed = deflate(data);
    let crc = crc32(data);
    let out = match frame_block(compressed.as_slice(), crc, data.len() as u32) {
        Ok(b) => b,
        Err(e) => return Err(e),
    };
    proof {
        let c = compressed@;
        let b = out@;
        assert(b =~= block_bytes(data@));
        lemma_le16_bytes(c.len() + 25 as int);
        assert(le16(b, 16) == le16(le16_bytes(c.len() + 25 as int), 0));
        assert(header_ok(b, 0));
        let size = le16(b, 16) + 1;
        assert(b.subrange(18, size - 8) =~= c);
        let t1 = b.subrange(size - 8, size - 4);
        let t2 = b.subrange(size - 4, size);
        assert(t1 =~= le32_bytes(crc32_of(data@) as int));
        assert(t2 =~= le32_bytes(data@.len() as int));
        lemma_le32_bytes(crc32_of(data@) as int);
        lemma_le32_bytes(data@.len() as int);
        assert(le32(b, size - 8) == le32(t1, 0));
        assert(le32(b, size - 4) == le32(t2, 0));
    }
    Ok(out)
}

/// The fixed terminator block.
pub fn terminator() -> (r: Vec<u8>)
    ensures
        r@ == terminator_bytes(),
{
    let r: Vec<u8> = vec![31u8, 139, 8, 4, 0, 0, 0, 0, 0, 255, 6, 0, 66, 67, 2, 0, 27, 0, 3, 0, 0, 0, 0, 0, 0, 0, 0, 0];
    assert(r@ =~= terminator_bytes());
    r
}

/// Whether the block at `pos` of `src` is the terminator block.
pub fn is_terminator_at(src: &[u8], pos: usize) -> (r: bool)
    ensures
        r == (pos + TERMINATOR_LEN <= src@.len() && src@.subrange(pos as int, pos + TERMINATOR_LEN)
            == terminator_bytes()),
{
    if pos > src.len() || src.len() - pos < TERMINATOR_LEN {
        return false;
    }
    let t = terminator();
    let n: usize = src.len();
    let mut i: usize = 0;
    while i < TERMINATOR_LEN
        invariant
            i <= TERMINATOR_LEN,
            pos + TERMINATOR_LEN <= src@.len(),
            n == src@.len(),
            t@ == terminator_bytes(),
            forall|j: int| 0 <= j < i ==> src@[pos + j] == t@[j],
        decreases TERMINATOR_LEN - i,
    {
        if src[pos + i] != t[i] {
            assert(src@.subrange(pos as int, pos + TERMINATOR_LEN)[i as int] != t@[i as int]);
            return false;
        }
        i = i + 1;
    }
    assert(src@.subrange(pos as int, pos + TERMINATOR_LEN) =~= t@);
    true
}

/// A block that decodes has a trailer that agrees with its data: where
/// trailers are checked, the stored checksum is the CRC-32 of the
/// decompressed bytes and the stored length is their length.
pub proof fn lemma_decoded_block_matches_trailer(s: Seq<u8>, pos: int)
    requires
        0 <= pos,
        parse_block(s, pos, true) is Block,
    ensures
        parse_block(s, pos, true) matches Parsed::Block(d, next) ==> le32(s, next - 8)
            == crc32_of(d) as int && le32(s, next - 4) == d.len(),
{
}

/// Any non-empty proper prefix of the bytes of one block reads as a
/// truncated block.
pub proof fn lemma_truncated_block(b: Seq<u8>, k: int, verify: bool)
    requires
        parse_block(b, 0, verify) is Block,
        parse_block(b, 0, verify)->Block_1 == b.len(),
        0 < k < b.len(),
    ensures
        parse_block(b.subrange(0, k), 0, verify) == Parsed::Bad(BgzfError::Truncated),
{
    let t = b.subrange(0, k);
    if k >= HEADER_LEN {
        assert(header_ok(t, 0) == header_ok(b, 0));
        assert(le16(t, 16) == le16(b, 16));
    }
}

} // verus!
