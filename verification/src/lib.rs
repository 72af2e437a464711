//! A bit-addressable view over byte buffers.
//!
//! Cursors (`BitSlice`, `BitSliceMut`) read and write individual bits, runs of
//! bits, and byte-aligned spans at arbitrary sub-byte positions, packing bits
//! most-significant-first within each byte. Staged wrappers (`Fill`, `Drain`
//! and their capped variants) move bits incrementally between an owned buffer
//! and any bit source or sink, resuming across calls at a persisted bit offset.

use vstd::prelude::*;

pub mod bits;
pub mod sink;
pub mod source;
pub mod staged;

mod slice_ops;

pub use sink::BitBufMut;
pub use sink::BitSliceMut;
pub use source::BitBuf;
pub use source::BitSlice;
pub use staged::CappedDrain;
pub use staged::CappedFill;
pub use staged::Drain;
pub use staged::Fill;

verus! {

/// The cursor ran out of bits: the source has no more to give, or the sink no
/// more room to accept, at the bit level.
#[derive(Clone, Copy, Debug, PartialEq, Eq, Structural)]
pub struct Insufficient;

/// A caller-supplied slice is too small in bytes to represent the requested
/// bit count, independent of the cursor's own remaining-bits accounting.
#[derive(Clone, Copy, Debug, PartialEq, Eq, Structural)]
pub struct Overflow;

/// Either failure of an all-or-nothing transfer.
#[derive(Clone, Copy, Debug, PartialEq, Eq, Structural)]
pub enum UnalignedError {
    Insufficient(Insufficient),
    Overflow(Overflow),
}

impl From<Insufficient> for UnalignedError {
    fn from(e: Insufficient) -> (r: Self) {
        UnalignedError::Insufficient(e)
    }
}

impl vstd::std_specs::convert::FromSpecImpl<Insufficient> for UnalignedError {
    open spec fn obeys_from_spec() -> bool {
        true
    }

    open spec fn from_spec(e: Insufficient) -> Self {
        UnalignedError::Insufficient(e)
    }
}

} // verus!
