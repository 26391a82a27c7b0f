//! The record contract: the owned and borrowed forms a payload type must
//! supply for the store to write and read it, and the BED record pair the
//! library ships.
//!
//! A record's encoding is opaque to the store; all the store relies on is
//! that decoding a valid encoding yields a record with the same encoding,
//! and that the encoding determines the record's coordinates.

use vstd::prelude::*;
use vstd::bytes::{spec_u32_to_le_bytes, spec_u32_from_le_bytes, lemma_auto_spec_u32_to_from_le_bytes, u32_to_le_bytes, u32_from_le_bytes};
use vstd::slice::{slice_subrange, slice_to_vec};

verus! {

/// The owned form of a record: start and end coordinates plus an opaque
/// byte encoding that round-trips.
pub trait Record: Sized {
    /// The start coordinate (0-based, inclusive), as a spec value.
    spec fn spec_start(&self) -> u32;

    /// The end coordinate (0-based, exclusive), as a spec value.
    spec fn spec_end(&self) -> u32;

    /// The record's byte encoding, as a spec value.
    spec fn spec_to_bytes(&self) -> Seq<u8>;

    /// The encoding determines the coordinates: two records that encode
    /// to the same bytes claim the same range.
    proof fn lemma_encoding_determines(a: &Self, b: &Self)
        requires
            a.spec_to_bytes() == b.spec_to_bytes(),
        ensures
            a.spec_start() == b.spec_start(),
            a.spec_end() == b.spec_end(),
    ;

    /// The start coordinate.
    fn start(&self) -> (r: u32)
        ensures
            r == self.spec_start(),
    ;

    /// The end coordinate.
    fn end(&self) -> (r: u32)
        ensures
            r == self.spec_end(),
    ;

    /// Serialize the record.
    fn to_bytes(&self) -> (r: Vec<u8>)
        ensures
            r@ == self.spec_to_bytes(),
    ;

    /// Decode a record from bytes.  On any valid encoding this inverts
    /// `to_bytes` up to encoding equality; on other inputs it still
    /// returns some record rather than failing.
    fn from_bytes(bytes: &[u8]) -> (r: Self)
        ensures
            (exists|x: Self| bytes@ == #[trigger] x.spec_to_bytes()) ==> r.spec_to_bytes()
                == bytes@,
    ;
}

/// The borrowed, zero-copy form of a record: a view over a byte range of
/// a mapped data buffer.
pub trait RecordSlice<'a>: Sized {
    /// The owned form this slice converts to.
    type Owned: Record;

    /// The start coordinate this view claims.
    spec fn spec_start(&self) -> u32;

    /// The end coordinate this view claims.
    spec fn spec_end(&self) -> u32;

    /// The encoding this view stands for.
    spec fn spec_encoding(&self) -> Seq<u8>;

    /// View a record in its encoded bytes, without copying the payload.
    fn from_bytes(bytes: &'a [u8]) -> (r: Self)
        ensures
            (exists|x: Self::Owned| bytes@ == #[trigger] x.spec_to_bytes())
                ==> r.spec_encoding() == bytes@,
    ;

    /// The start coordinate.
    fn start(&self) -> (r: u32)
        ensures
            r == self.spec_start(),
    ;

    /// The end coordinate.
    fn end(&self) -> (r: u32)
        ensures
            r == self.spec_end(),
    ;

    /// Copy the viewed bytes into an owned record.
    fn to_owned(self) -> (r: Self::Owned)
        ensures
            r.spec_to_bytes() == self.spec_encoding(),
    ;
}

/// A BED-style record: coordinates as little-endian 32-bit integers
/// followed by the remaining tab-separated fields, kept byte-for-byte.
#[derive(Clone, Debug, PartialEq)]
pub struct BedRecord {
    /// Start position.
    pub start: u32,
    /// End position.
    pub end: u32,
    /// The remaining fields, verbatim.
    pub rest: Vec<u8>,
}

/// The borrowed form of a BED record over a mapped buffer.
#[derive(Debug, Clone, Copy, PartialEq)]
pub struct BedRecordSlice<'a> {
    /// Start position.
    pub start: u32,
    /// End position.
    pub end: u32,
    /// The remaining fields, verbatim.
    pub rest: &'a [u8],
}

impl Record for BedRecord {
    open spec fn spec_start(&self) -> u32 {
        self.start
    }

    open spec fn spec_end(&self) -> u32 {
        self.end
    }

    open spec fn spec_to_bytes(&self) -> Seq<u8> {
        spec_u32_to_le_bytes(self.start) + spec_u32_to_le_bytes(self.end) + self.rest@
    }

    proof fn lemma_encoding_determines(a: &Self, b: &Self) {
        lemma_auto_spec_u32_to_from_le_bytes();
        assert(a.spec_to_bytes().subrange(0, 4) =~= spec_u32_to_le_bytes(a.start));
        assert(b.spec_to_bytes().subrange(0, 4) =~= spec_u32_to_le_bytes(b.start));
        assert(a.spec_to_bytes().subrange(4, 8) =~= spec_u32_to_le_bytes(a.end));
        assert(b.spec_to_bytes().subrange(4, 8) =~= spec_u32_to_le_bytes(b.end));
        assert(spec_u32_from_le_bytes(spec_u32_to_le_bytes(a.start)) == a.start);
        assert(spec_u32_from_le_bytes(spec_u32_to_le_bytes(b.start)) == b.start);
        assert(spec_u32_from_le_bytes(spec_u32_to_le_bytes(a.end)) == a.end);
        assert(spec_u32_from_le_bytes(spec_u32_to_le_bytes(b.end)) == b.end);
    }

    fn start(&self) -> u32 {
        self.start
    }

    fn end(&self) -> u32 {
        self.end
    }

    fn to_bytes(&self) -> (r: Vec<u8>) {
        let mut bytes = u32_to_le_bytes(self.start);
        let mut end_bytes = u32_to_le_bytes(self.end);
        bytes.append(&mut end_bytes);
        bytes.extend_from_slice(self.rest.as_slice());
        proof {
            lemma_auto_spec_u32_to_from_le_bytes();
            assert(bytes@ =~= self.spec_to_bytes());
        }
        bytes
    }

    fn from_bytes(bytes: &[u8]) -> (r: Self) {
        if bytes.len() < 8 {
            proof {
                lemma_auto_spec_u32_to_from_le_bytes();
                if exists|x: BedRecord| bytes@ == #[trigger] x.spec_to_bytes() {
                    let x = choose|x: BedRecord| bytes@ == #[trigger] x.spec_to_bytes();
                    assert(x.spec_to_bytes().len() >= 8);
                }
            }
            // Not a valid encoding; yield the empty record.
            BedRecord { start: 0, end: 0, rest: Vec::new() }
        } else {
            let n = bytes.len();
            let start = u32_from_le_bytes(slice_subrange(bytes, 0, 4));
            let end = u32_from_le_bytes(slice_subrange(bytes, 4, 8));
            let rest = slice_to_vec(slice_subrange(bytes, 8, n));
            let r = BedRecord { start, end, rest };
            proof {
                lemma_auto_spec_u32_to_from_le_bytes();
                if exists|x: BedRecord| bytes@ == #[trigger] x.spec_to_bytes() {
                    let x = choose|x: BedRecord| bytes@ == #[trigger] x.spec_to_bytes();
                    assert(bytes@.subrange(0, 4) =~= spec_u32_to_le_bytes(x.start));
                    assert(bytes@.subrange(4, 8) =~= spec_u32_to_le_bytes(x.end));
                    assert(bytes@.subrange(8, n as int) =~= x.rest@);
                    assert(r.spec_to_bytes() =~= bytes@);
                }
            }
            r
        }
    }
}

impl crate::GenomicCoordinates for BedRecord {
    open spec fn spec_start(&self) -> u32 {
        self.start
    }

    open spec fn spec_end(&self) -> u32 {
        self.end
    }

    fn start(&self) -> u32 {
        self.start
    }

    fn end(&self) -> u32 {
        self.end
    }
}

impl<'a> RecordSlice<'a> for BedRecordSlice<'a> {
    type Owned = BedRecord;

    open spec fn spec_start(&self) -> u32 {
        self.start
    }

    open spec fn spec_end(&self) -> u32 {
        self.end
    }

    open spec fn spec_encoding(&self) -> Seq<u8> {
        spec_u32_to_le_bytes(self.start) + spec_u32_to_le_bytes(self.end) + self.rest@
    }

    fn from_bytes(bytes: &'a [u8]) -> (r: Self) {
        if bytes.len() < 8 {
            proof {
                lemma_auto_spec_u32_to_from_le_bytes();
                if exists|x: BedRecord| bytes@ == #[trigger] x.spec_to_bytes() {
                    let x = choose|x: BedRecord| bytes@ == #[trigger] x.spec_to_bytes();
                    assert(x.spec_to_bytes().len() >= 8);
                }
            }
            let empty = slice_subrange(bytes, 0, 0);
            BedRecordSlice { start: 0, end: 0, rest: empty }
        } else {
            let n = bytes.len();
            let start = u32_from_le_bytes(slice_subrange(bytes, 0, 4));
            let end = u32_from_le_bytes(slice_subrange(bytes, 4, 8));
            let rest = slice_subrange(bytes, 8, n);
            let r = BedRecordSlice { start, end, rest };
            proof {
                lemma_auto_spec_u32_to_from_le_bytes();
                if exists|x: BedRecord| bytes@ == #[trigger] x.spec_to_bytes() {
                    let x = choose|x: BedRecord| bytes@ == #[trigger] x.spec_to_bytes();
                    assert(bytes@.subrange(0, 4) =~= spec_u32_to_le_bytes(x.start));
                    assert(bytes@.subrange(4, 8) =~= spec_u32_to_le_bytes(x.end));
                    assert(bytes@.subrange(8, n as int) =~= x.rest@);
                    assert(r.spec_encoding() =~= bytes@);
                }
            }
            r
        }
    }

    fn start(&self) -> u32 {
        self.start
    }

    fn end(&self) -> u32 {
        self.end
    }

    fn to_owned(self) -> (r: BedRecord) {
        let rest = slice_to_vec(self.rest);
        let r = BedRecord { start: self.start, end: self.end, rest };
        proof {
            assert(r.spec_to_bytes() =~= self.spec_encoding());
        }
        r
    }
}

} // verus!
