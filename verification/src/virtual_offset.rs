//! The packed virtual offset of the historical block-compressed layout:
//! a file offset in the upper 48 bits and an offset inside the
//! decompressed block in the lower 16.  The chosen uncompressed design
//! resolves queries to plain file offsets, but the packed form remains
//! part of the public vocabulary.

use vstd::prelude::*;

verus! {

/// A `(block file offset, block inner offset)` pair packed in a `u64`.
#[derive(Debug, Clone, Copy, PartialEq, Eq, Structural)]
pub struct VirtualOffset {
    /// The packed value.
    pub value: u64,
}

impl VirtualOffset {
    /// Pack a file offset and an in-block offset.  File offsets at or
    /// above `2^48` do not fit and would be truncated.
    pub fn new(file_offset: u64, block_offset: u16) -> (r: Self)
        ensures
            r.value == (file_offset << 16u64) | (block_offset as u64),
            file_offset < 0x1_0000_0000_0000 ==> r.value >> 16u64 == file_offset,
            file_offset < 0x1_0000_0000_0000 ==> (r.value & 0xFFFF) == block_offset as u64,
    {
        let value: u64 = (file_offset << 16u64) | (block_offset as u64);
        proof {
            assert(file_offset < 0x1_0000_0000_0000 ==> ((file_offset << 16u64) | (
            block_offset as u64)) >> 16u64 == file_offset) by (bit_vector);
            assert(file_offset < 0x1_0000_0000_0000 ==> (((file_offset << 16u64) | (
            block_offset as u64)) & 0xFFFF) == block_offset as u64) by (bit_vector);
        }
        Self { value }
    }

    /// The file offset held in the upper 48 bits.
    pub fn file_offset(&self) -> (r: u64)
        ensures
            r == self.value >> 16u64,
    {
        self.value >> 16u64
    }

    /// The in-block offset held in the lower 16 bits.
    pub fn block_offset(&self) -> (r: u16)
        ensures
            r as u64 == self.value & 0xFFFF,
    {
        let v = self.value;
        proof {
            assert(v & 0xFFFF <= 0xFFFF) by (bit_vector);
        }
        (v & 0xFFFF) as u16
    }
}

impl From<VirtualOffset> for u64 {
    /// Unpack to the raw `u64`.
    fn from(v: VirtualOffset) -> (r: u64)
        ensures
            r == v.value,
    {
        v.value
    }
}

impl vstd::std_specs::convert::FromSpecImpl<VirtualOffset> for u64 {
    open spec fn obeys_from_spec() -> bool {
        true
    }

    open spec fn from_spec(v: VirtualOffset) -> u64 {
        v.value
    }
}

impl From<u64> for VirtualOffset {
    /// Wrap a raw `u64`.
    fn from(value: u64) -> (r: VirtualOffset)
        ensures
            r.value == value,
    {
        VirtualOffset { value }
    }
}

impl vstd::std_specs::convert::FromSpecImpl<u64> for VirtualOffset {
    open spec fn obeys_from_spec() -> bool {
        true
    }

    open spec fn from_spec(value: u64) -> VirtualOffset {
        VirtualOffset { value }
    }
}

} // verus!
