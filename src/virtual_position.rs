use vstd::prelude::*;

use crate::error::BgzfError;

verus! {

/// Largest compressed offset that fits in the upper 48 bits.
pub const MAX_COMPRESSED_OFFSET: u64 = 0xffff_ffff_ffff;

/// Number of distinct within-block offsets (the lower 16 bits).
pub const UNCOMPRESSED_RANGE: u64 = 0x1_0000;

/// The packed value of a (compressed offset, within-block offset) pair.
pub open spec fn pack_spec(compressed: int, uncompressed: int) -> int {
    compressed * 0x1_0000 + uncompressed
}

/// A 64-bit address into the decompressed stream: the upper 48 bits give the
/// byte offset of a block in the compressed source, the lower 16 bits the
/// offset inside that block's decompressed data.
#[derive(Clone, Copy, Debug, PartialEq, Eq, PartialOrd, Ord, Hash, Structural)]
pub struct VirtualPosition(pub u64);

impl VirtualPosition {
    pub open spec fn compressed_spec(self) -> int {
        self.0 as int / 0x1_0000
    }

    pub open spec fn uncompressed_spec(self) -> int {
        self.0 as int % 0x1_0000
    }

    /// Packs a pair; the compressed offset must fit in 48 bits and the
    /// within-block offset in 16 bits.
    pub fn pack(compressed: u64, uncompressed: u64) -> (r: Result<VirtualPosition, BgzfError>)
        ensures
            compressed <= MAX_COMPRESSED_OFFSET && uncompressed < UNCOMPRESSED_RANGE ==> r == Ok::<
                VirtualPosition,
                BgzfError,
            >(VirtualPosition(pack_spec(compressed as int, uncompressed as int) as u64)),
            !(compressed <= MAX_COMPRESSED_OFFSET && uncompressed < UNCOMPRESSED_RANGE) ==> r
                == Err::<VirtualPosition, BgzfError>(BgzfError::Contract),
    {
        if compressed > MAX_COMPRESSED_OFFSET || uncompressed >= UNCOMPRESSED_RANGE {
            Err(BgzfError::Contract)
        } else {
            Ok(VirtualPosition(compressed * 0x1_0000 + uncompressed))
        }
    }

    /// The byte offset of the block in the compressed source.
    pub fn compressed(self) -> (r: u64)
        ensures
            r == self.compressed_spec(),
    {
        self.0 / 0x1_0000
    }

    /// The byte offset inside the block's decompressed data.
    pub fn uncompressed(self) -> (r: u16)
        ensures
            r == self.uncompressed_spec(),
    {
        (self.0 % 0x1_0000) as u16
    }

    /// The raw 64-bit representation.
    pub fn to_u64(self) -> (r: u64)
        ensures
            r == self.0,
    {
        self.0
    }

    /// Wraps a raw 64-bit value; every value unpacks to some pair.
    pub fn from_u64(v: u64) -> (r: VirtualPosition)
        ensures
            r.0 == v,
    {
        VirtualPosition(v)
    }
}

/// Unpacking a packed pair gives the pair back, for every compressed offset
/// of at most 48 bits and every within-block offset below 65536.
pub proof fn lemma_pack_unpack(compressed: int, uncompressed: int)
    requires
        0 <= compressed <= MAX_COMPRESSED_OFFSET,
        0 <= uncompressed < UNCOMPRESSED_RANGE,
    ensures
        0 <= pack_spec(compressed, uncompressed) <= u64::MAX,
        VirtualPosition(pack_spec(compressed, uncompressed) as u64).compressed_spec() == compressed,
        VirtualPosition(pack_spec(compressed, uncompressed) as u64).uncompressed_spec()
            == uncompressed,
{
    let p = pack_spec(compressed, uncompressed);
    vstd::arithmetic::div_mod::lemma_fundamental_div_mod_converse(
        p,
        0x1_0000,
        compressed,
        uncompressed,
    );
}

} // verus!
