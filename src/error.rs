use vstd::prelude::*;

verus! {

/// What can go wrong while framing, reading or writing blocks.
#[derive(Clone, Copy, Debug, PartialEq, Eq, Structural)]
pub enum BgzfError {
    /// A header, payload or trailer is shorter than declared.
    Truncated,
    /// The framing fields are inconsistent or do not describe a block.
    Framing,
    /// The checksum or length in the trailer disagrees with the payload.
    Integrity,
    /// The caller broke a precondition of the operation.
    Contract,
}

} // verus!
