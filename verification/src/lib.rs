//! Hierarchical binning index and record store for genomic interval records.
//!
//! Records are half-open intervals `[start, end)` over `u32` coordinates,
//! grouped by sequence (chromosome) name.  A pack phase appends records in
//! sorted order and builds a per-sequence binning index; a query phase
//! resolves range-overlap queries to byte ranges in per-sequence data
//! buffers and materialises the records they frame.

pub mod binning;
pub mod binning_index;
pub mod records;
pub mod persist;
pub mod regions;
pub mod store;
pub mod virtual_offset;

pub use binning::{BinningSchema, HierarchicalBins, calc_level_sizes, calc_offsets, calc_offsets_from_levels};
pub use binning_index::{BinningIndex, Feature, LinearIndex, SequenceIndex};
pub use records::{BedRecord, BedRecordSlice, Record, RecordSlice};
pub use regions::{compare_chromosomes, parse_region};
pub use store::GenomicDataStore;
pub use virtual_offset::VirtualOffset;

use vstd::prelude::*;

verus! {

/// Error kinds shared by the pack and query phases.
#[derive(Debug, Clone, PartialEq)]
pub enum HgIndexError {
    /// A query `[start, end)` with `end <= start`.
    InvalidInterval { start: u32, end: u32 },
    /// An insert `[start, end)` with `end <= start`.
    ZeroLengthFeature(u32, u32),
    /// An insert that violates the sorted-append invariant.
    UnsortedFeatures { chrom: Vec<u8>, bin_id: u32, previous: u32, current: u32 },
    /// A data buffer that does not begin with the expected magic bytes.
    InvalidFileFormat,
    /// An index byte stream that does not parse.
    DeserializationError,
    /// Any other error, described by a message.
    StringError(String),
}

/// Capabilities of a type that carries genomic coordinates.
pub trait GenomicCoordinates {
    /// The start coordinate this value claims, as a spec-level view.
    spec fn spec_start(&self) -> u32;

    /// The end coordinate this value claims, as a spec-level view.
    spec fn spec_end(&self) -> u32;

    /// Get the start coordinate (0-based, inclusive).
    fn start(&self) -> (r: u32)
        ensures
            r == self.spec_start(),
    ;

    /// Get the end coordinate (0-based, exclusive).
    fn end(&self) -> (r: u32)
        ensures
            r == self.spec_end(),
    ;
}

} // verus!
