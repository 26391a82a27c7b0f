//! The record store: per-sequence append-only data buffers framing each
//! record as `u64 length, then payload` behind a 4-byte magic, married to the
//! binning index.  The pack phase appends records in sorted order; the
//! query phase maps index candidates to byte ranges and materialises the
//! records they frame.

use vstd::prelude::*;
use vstd::bytes::{spec_u64_to_le_bytes, u64_to_le_bytes};
use vstd::slice::{slice_subrange, slice_to_vec};
use vstd::string::StringSliceAdditionalSpecFns;
use crate::binning::BinningSchema;
use crate::binning_index::{BinningIndex, Feature, SequenceIndex, seq_lookup, bytes_eq, stored_at, valid_pos, offsets_follow_starts, offsets_distinct};
use crate::persist::{serialize_index, deserialize_index, ser_index_file};
use crate::records::Record;
use crate::HgIndexError;

verus! {

/// One sequence's data bytes, in write mode during pack or read mode
/// after finalize or attach.
#[derive(Debug, Clone, PartialEq)]
pub struct DataBuffer {
    write_mode: bool,
    bytes: Vec<u8>,
}

/// The value stored under a name in an association list keyed by byte
/// vectors, if any; names compare by content.
pub open spec fn vlookup<V>(ds: Seq<(Vec<u8>, V)>, name: Seq<u8>) -> Option<V>
    decreases ds.len(),
{
    if ds.len() == 0 {
        None
    } else if ds[0].0@ == name {
        Some(ds[0].1)
    } else {
        vlookup(ds.drop_first(), name)
    }
}

/// The data buffer stored under a name, if any.
pub open spec fn data_lookup(ds: Seq<(Vec<u8>, DataBuffer)>, name: Seq<u8>) -> Option<DataBuffer> {
    vlookup(ds, name)
}

/// Looking up a name held first at position `t` yields that entry.
proof fn lemma_vlookup_at<V>(ds: Seq<(Vec<u8>, V)>, name: Seq<u8>, t: int)
    requires
        0 <= t < ds.len(),
        ds[t].0@ == name,
        forall|u: int| 0 <= u < t ==> (#[trigger] ds[u]).0@ != name,
    ensures
        vlookup(ds, name) == Some(ds[t].1),
    decreases t,
{
    if t > 0 {
        lemma_vlookup_at(ds.drop_first(), name, t - 1);
    }
}

/// Looking up a name no entry holds yields nothing.
proof fn lemma_vlookup_absent<V>(ds: Seq<(Vec<u8>, V)>, name: Seq<u8>)
    requires
        forall|u: int| 0 <= u < ds.len() ==> (#[trigger] ds[u]).0@ != name,
    ensures
        vlookup(ds, name).is_none(),
    decreases ds.len(),
{
    if ds.len() > 0 {
        lemma_vlookup_absent(ds.drop_first(), name);
    }
}

/// Replacing the first entry holding a name moves that name's lookup and
/// no other.
proof fn lemma_vlookup_update<V>(
    olds: Seq<(Vec<u8>, V)>,
    news: Seq<(Vec<u8>, V)>,
    pos: int,
    name: Seq<u8>,
)
    requires
        0 <= pos < olds.len(),
        news.len() == olds.len(),
        olds[pos].0@ == name,
        news[pos].0@ == name,
        forall|u: int| 0 <= u < pos ==> (#[trigger] olds[u]).0@ != name,
        forall|u: int| 0 <= u < olds.len() && u != pos ==> (#[trigger] news[u]) == olds[u],
    ensures
        vlookup(news, name) == Some(news[pos].1),
        forall|n2: Seq<u8>| n2 != name ==> vlookup(news, n2) == vlookup(olds, n2),
    decreases pos,
{
    if pos == 0 {
        assert(news.drop_first() =~= olds.drop_first());
        assert forall|n2: Seq<u8>| n2 != name implies vlookup(news, n2) == vlookup(olds, n2) by {
            assert(vlookup(news, n2) == vlookup(news.drop_first(), n2));
            assert(vlookup(olds, n2) == vlookup(olds.drop_first(), n2));
        }
    } else {
        assert forall|u: int| 0 <= u < pos - 1 implies (#[trigger] olds.drop_first()[u]).0@ != name by {
            assert(olds.drop_first()[u] == olds[u + 1]);
        }
        assert forall|u: int| 0 <= u < olds.drop_first().len() && u != pos - 1 implies (
        #[trigger] news.drop_first()[u]) == olds.drop_first()[u] by {
            assert(news.drop_first()[u] == news[u + 1]);
            assert(olds.drop_first()[u] == olds[u + 1]);
        }
        assert(olds.drop_first()[pos - 1].0@ == name);
        assert(news.drop_first()[pos - 1].0@ == name);
        lemma_vlookup_update(olds.drop_first(), news.drop_first(), pos - 1, name);
        assert(news[0] == olds[0]);
        assert(news.drop_first()[pos - 1] == news[pos]);
        assert forall|n2: Seq<u8>| n2 != name implies vlookup(news, n2) == vlookup(olds, n2) by {
            if olds[0].0@ != n2 {
                assert(vlookup(news, n2) == vlookup(news.drop_first(), n2));
                assert(vlookup(olds, n2) == vlookup(olds.drop_first(), n2));
            } else {
                assert(vlookup(news, n2) == Some(news[0].1));
                assert(vlookup(olds, n2) == Some(olds[0].1));
            }
        }
    }
}

/// Appending an entry under a fresh name adds that name's lookup and no
/// other.
proof fn lemma_vlookup_push<V>(olds: Seq<(Vec<u8>, V)>, elt: (Vec<u8>, V))
    requires
        forall|u: int| 0 <= u < olds.len() ==> (#[trigger] olds[u]).0@ != elt.0@,
    ensures
        vlookup(olds.push(elt), elt.0@) == Some(elt.1),
        forall|n2: Seq<u8>| n2 != elt.0@ ==> vlookup(olds.push(elt), n2) == vlookup(olds, n2),
    decreases olds.len(),
{
    let news = olds.push(elt);
    if olds.len() == 0 {
        assert(news[0] == elt);
        assert(news.drop_first() =~= Seq::<(Vec<u8>, V)>::empty());
        assert forall|n2: Seq<u8>| n2 != elt.0@ implies vlookup(news, n2) == vlookup(olds, n2) by {
            assert(vlookup(news, n2) == vlookup(news.drop_first(), n2));
        }
    } else {
        assert forall|u: int| 0 <= u < olds.drop_first().len() implies (
        #[trigger] olds.drop_first()[u]).0@ != elt.0@ by {
            assert(olds.drop_first()[u] == olds[u + 1]);
        }
        lemma_vlookup_push(olds.drop_first(), elt);
        assert(news.drop_first() =~= olds.drop_first().push(elt));
        assert(news[0] == olds[0]);
        assert(vlookup(news, elt.0@) == vlookup(news.drop_first(), elt.0@));
        assert forall|n2: Seq<u8>| n2 != elt.0@ implies vlookup(news, n2) == vlookup(olds, n2) by {
            if olds[0].0@ != n2 {
                assert(vlookup(news, n2) == vlookup(news.drop_first(), n2));
                assert(vlookup(olds, n2) == vlookup(olds.drop_first(), n2));
            } else {
                assert(vlookup(news, n2) == Some(news[0].1));
                assert(vlookup(olds, n2) == Some(olds[0].1));
            }
        }
    }
}

impl DataBuffer {
    /// The held bytes.
    pub closed spec fn spec_bytes(&self) -> Seq<u8> {
        self.bytes@
    }

    /// Whether the buffer still accepts appends.
    pub closed spec fn spec_write_mode(&self) -> bool {
        self.write_mode
    }
}

/// The data-file magic, `"GIDX"` in ASCII.
pub open spec fn spec_magic() -> Seq<u8> {
    seq![71u8, 73u8, 68u8, 88u8]
}

/// One frame is in bounds and carries its length prefix.
pub open spec fn frame_ok(data: Seq<u8>, f: Feature) -> bool {
    &&& f.index + 8 + f.length <= data.len()
    &&& data.subrange(f.index as int, f.index as int + 8) == spec_u64_to_le_bytes(f.length)
}

/// Every feature of a sequence index has a sound frame in the data.
pub open spec fn frames_ok(data: Seq<u8>, seq: SequenceIndex) -> bool {
    forall|b: u32, i: int|
        #![trigger stored_at(&seq, b, i)]
        valid_pos(&seq, b, i) ==> frame_ok(data, stored_at(&seq, b, i))
}

/// The payload bytes a frame holds.
pub open spec fn frame_payload(data: Seq<u8>, f: Feature) -> Seq<u8> {
    data.subrange(f.index as int + 8, f.index as int + 8 + f.length as int)
}

/// The candidates that survive the read path's bounds checks, in order.
pub open spec fn surviving(data: Seq<u8>, cands: Seq<(u64, u64)>) -> Seq<(u64, u64)>
    decreases cands.len(),
{
    if cands.len() == 0 {
        Seq::empty()
    } else {
        surviving(data, cands.drop_last()) + (if cands.last().0 + 8 + cands.last().1
            <= data.len() {
            seq![cands.last()]
        } else {
            Seq::empty()
        })
    }
}

/// The payload byte ranges the surviving candidates frame, in order.
pub open spec fn spec_payloads(data: Seq<u8>, cands: Seq<(u64, u64)>) -> Seq<Seq<u8>>
    decreases cands.len(),
{
    if cands.len() == 0 {
        Seq::empty()
    } else {
        spec_payloads(data, cands.drop_last()) + (if cands.last().0 + 8 + cands.last().1
            <= data.len() {
            seq![data.subrange(cands.last().0 as int + 8, cands.last().0 as int + 8 + cands.last().1 as int)]
        } else {
            Seq::empty()
        })
    }
}

/// The genomic data store: the binning index plus one data buffer per
/// sequence, generic over the record type it frames.
#[derive(Debug)]
pub struct GenomicDataStore<T: Record> {
    index: BinningIndex,
    data: Vec<(Vec<u8>, DataBuffer)>,
    metadata: Option<Vec<u8>>,
    _marker: core::marker::PhantomData<T>,
}

impl<T: Record> GenomicDataStore<T> {
    /// The store's index.
    pub closed spec fn spec_index(&self) -> BinningIndex {
        self.index
    }

    /// The metadata blob the store was finalized with, if any.
    pub closed spec fn spec_metadata(&self) -> Option<Seq<u8>> {
        match self.metadata {
            Some(m) => Some(m@),
            None => None,
        }
    }

    /// The data bytes held for a sequence, if attached.
    pub closed spec fn spec_data(&self, name: Seq<u8>) -> Option<Seq<u8>> {
        match data_lookup(self.data@, name) {
            Some(h) => Some(h.spec_bytes()),
            None => None,
        }
    }

    /// Whether a sequence's buffer is still in write mode.
    pub closed spec fn spec_write_mode(&self, name: Seq<u8>) -> bool {
        match data_lookup(self.data@, name) {
            Some(h) => h.spec_write_mode(),
            None => false,
        }
    }

    /// What the query path needs: a valid index scheme.
    pub closed spec fn query_wf(&self) -> bool {
        self.index.query_wf()
    }

    /// The store's inductive invariant during and after a pack session.
    pub closed spec fn wf(&self) -> bool {
        store_wf(self.index, self.data@)
    }

    /// Create a store with the default (tabix) schema.
    pub fn create() -> (r: Self)
        ensures
            r.wf(),
            r.spec_index().sequences@.len() == 0,
            r.spec_index().bins.schema == BinningSchema::Tabix,
            r.spec_index().bins.base_shift == 14,
            r.spec_index().bins.level_shift == 3,
            r.spec_index().bins.num_levels == 6,
            r.spec_index().bins.linear_shift == Some(14u32),
            r.spec_metadata().is_none(),
    {
        Self::create_with_schema(&BinningSchema::Tabix)
    }

    /// Create a store with a chosen binning schema.
    pub fn create_with_schema(schema: &BinningSchema) -> (r: Self)
        ensures
            r.wf(),
            r.spec_index().sequences@.len() == 0,
            r.spec_index().bins.schema == *schema,
            r.spec_index().bins.base_shift == crate::binning::schema_base_shift(*schema),
            r.spec_index().bins.level_shift == crate::binning::schema_level_shift(*schema),
            r.spec_index().bins.num_levels == crate::binning::schema_num_levels(*schema),
            r.spec_index().bins.linear_shift == crate::binning::schema_linear_shift(*schema),
            r.spec_metadata().is_none(),
    {
        let index = BinningIndex::new(schema);
        proof {
            crate::binning_index::lemma_wf_implies_query_wf(&index);
        }
        let r = GenomicDataStore {
            index,
            data: Vec::new(),
            metadata: None,
            _marker: core::marker::PhantomData,
        };
        proof {
            assert forall|name: Seq<u8>|
                #![trigger seq_lookup(r.index.sequences@, name)]
                seq_lookup(r.index.sequences@, name).is_none() by {}
        }
        r
    }

    /// Position of the data buffer for a name, or the length if none.
    fn find_data_pos(&self, name: &[u8]) -> (r: usize)
        ensures
            r <= self.data@.len(),
            r < self.data@.len() ==> (self.data@[r as int].0@ == name@ && (forall|u: int|
                0 <= u < r ==> (#[trigger] self.data@[u]).0@ != name@)),
            r == self.data@.len() ==> (forall|u: int|
                0 <= u < self.data@.len() ==> (#[trigger] self.data@[u]).0@ != name@),
    {
        let n = self.data.len();
        let mut t: usize = 0;
        while t < n
            invariant
                t <= n,
                n == self.data@.len(),
                forall|u: int| 0 <= u < t ==> (#[trigger] self.data@[u]).0@ != name@,
            decreases n - t,
        {
            if bytes_eq(self.data[t].0.as_slice(), name) {
                return t;
            }
            t = t + 1;
        }
        n
    }
}

/// Whether a sequence index holds any feature at all.
pub open spec fn has_any_feature(seq: SequenceIndex) -> bool {
    exists|b: u32, i: int| #[trigger] valid_pos(&seq, b, i)
}

/// The store invariant over its components: the index is well-formed;
/// data buffer names are distinct and each buffer starts with the magic;
/// and every indexed sequence has sound frames in its data, offsets that
/// follow starts, and no repeated offset.
pub open spec fn store_wf(ix: BinningIndex, ds: Seq<(Vec<u8>, DataBuffer)>) -> bool {
    &&& ix.wf()
    &&& ix.query_wf()
    &&& (forall|t1: int, t2: int|
        0 <= t1 < t2 < ds.len() ==> (#[trigger] ds[t1]).0@ != (#[trigger] ds[t2]).0@)
    &&& (forall|t: int|
        0 <= t < ds.len() ==> (#[trigger] ds[t]).1.spec_bytes().len() >= 4
            && ds[t].1.spec_bytes().subrange(0, 4) == spec_magic())
    &&& (forall|name: Seq<u8>|
        #![trigger seq_lookup(ix.sequences@, name)]
        match seq_lookup(ix.sequences@, name) {
            Some(seq) => {
                &&& offsets_follow_starts(&seq)
                &&& offsets_distinct(seq)
                &&& (match data_lookup(ds, name) {
                    Some(h) => frames_ok(h.spec_bytes(), seq),
                    None => !has_any_feature(seq),
                })
            },
            None => true,
        })
}



impl<T: Record> GenomicDataStore<T> {
    /// Append a record for a sequence: frame its encoding in the
    /// sequence's data buffer and file the frame's range in the index.
    /// Rejects empty or inverted ranges and sorted-append violations,
    /// leaving the store unchanged.
    pub fn add_record(&mut self, chrom: &str, record: &T) -> (r: Result<(), HgIndexError>)
        requires
            old(self).wf(),
            record.spec_start() < record.spec_end() ==> (((record.spec_end() - 1) as u32 as nat)
                < old(self).spec_index().bins.coord_ceiling()),
        ensures
            final(self).wf(),
            final(self).spec_metadata() == old(self).spec_metadata(),
            final(self).spec_index().bins == old(self).spec_index().bins,
            record.spec_end() <= record.spec_start() <==> r == Err::<(), HgIndexError>(
                HgIndexError::ZeroLengthFeature(record.spec_start(), record.spec_end()),
            ),
            // Success is owed exactly when the range is nonempty, the
            // sorted-append order holds, and the sequence's buffer (if
            // any) still accepts appends.
            r is Ok <==> {
                &&& record.spec_start() < record.spec_end()
                &&& !old(self).spec_index().spec_add_rejected(
                    chrom.spec_bytes(),
                    record.spec_start(),
                )
                &&& !(old(self).spec_data(chrom.spec_bytes()) matches Some(_) && !old(
                    self,
                ).spec_write_mode(chrom.spec_bytes()))
            },
            match r {
                Result::Err(e) => {
                    &&& final(self).spec_index().sequences@ == old(self).spec_index().sequences@
                    &&& (forall|n: Seq<u8>| final(self).spec_data(n) == old(self).spec_data(n))
                    &&& (e matches HgIndexError::UnsortedFeatures { .. } ==> old(
                        self,
                    ).spec_index().spec_add_rejected(chrom.spec_bytes(), record.spec_start()))
                    &&& (e matches HgIndexError::StringError(_) ==> (old(self).spec_data(
                        chrom.spec_bytes(),
                    ) matches Some(_) && !old(self).spec_write_mode(chrom.spec_bytes())))
                },
                Result::Ok(_) => {
                    let name = chrom.spec_bytes();
                    let payload = record.spec_to_bytes();
                    let f = Feature {
                        start: record.spec_start(),
                        end: record.spec_end(),
                        index: match old(self).spec_data(name) {
                            Some(d) => d.len() as u64,
                            None => 4,
                        },
                        length: payload.len() as u64,
                    };
                    &&& record.spec_start() < record.spec_end()
                    &&& !old(self).spec_index().spec_add_rejected(name, record.spec_start())
                    &&& (forall|n2: Seq<u8>|
                        n2 != name ==> final(self).spec_data(n2) == old(self).spec_data(n2)
                            && seq_lookup(final(self).spec_index().sequences@, n2) == seq_lookup(
                            old(self).spec_index().sequences@,
                            n2,
                        ))
                    &&& final(self).spec_data(name) == Some(
                        (match old(self).spec_data(name) {
                            Some(d) => d,
                            None => spec_magic(),
                        }) + spec_u64_to_le_bytes(f.length) + payload,
                    )
                    &&& (final(self).spec_data(name) matches Some(d2) && frame_payload(d2, f)
                        == payload)
                    &&& (seq_lookup(final(self).spec_index().sequences@, name) matches Some(s2) && {
                        let bid = old(self).spec_index().bins.spec_region_to_bin(
                            f.start,
                            f.end,
                        ) as u32;
                        &&& s2.spec_last_start() == Some(f.start)
                        &&& (match seq_lookup(old(self).spec_index().sequences@, name) {
                            Some(s1) => {
                                &&& crate::binning_index::assoc_lookup(s2.bins@, bid)
                                    == crate::binning_index::assoc_lookup(s1.bins@, bid).push(f)
                                &&& (forall|b2: u32|
                                    b2 != bid ==> crate::binning_index::assoc_lookup(
                                        s2.bins@,
                                        b2,
                                    ) == crate::binning_index::assoc_lookup(s1.bins@, b2))
                                &&& crate::binning_index::linear_opt_updated(
                                    s1.linear_index,
                                    s2.linear_index,
                                    f.start,
                                    f.end,
                                    f.index,
                                )
                            },
                            None => {
                                &&& crate::binning_index::assoc_lookup(s2.bins@, bid) == seq![f]
                                &&& (forall|b2: u32|
                                    b2 != bid ==> crate::binning_index::assoc_lookup(
                                        s2.bins@,
                                        b2,
                                    ) == Seq::<Feature>::empty())
                                &&& (match old(self).spec_index().bins.linear_shift {
                                    Some(sh) => s2.linear_index matches Some(li1)
                                        && crate::binning_index::linear_fresh_updated(
                                        sh,
                                        li1,
                                        f.start,
                                        f.end,
                                        f.index,
                                    ),
                                    None => s2.linear_index is None,
                                })
                            },
                        })
                    })
                },
            },
            // A sorted-append rejection reports exactly the
            // `UnsortedFeatures` kind.
            (r matches Err(e) && e matches HgIndexError::UnsortedFeatures { .. }) <==> {
                &&& record.spec_start() < record.spec_end()
                &&& !(old(self).spec_data(chrom.spec_bytes()) matches Some(_) && !old(
                    self,
                ).spec_write_mode(chrom.spec_bytes()))
                &&& old(self).spec_index().spec_add_rejected(
                    chrom.spec_bytes(),
                    record.spec_start(),
                )
            },
    {
        let start = record.start();
        let end = record.end();
        if end <= start {
            return Err(HgIndexError::ZeroLengthFeature(start, end));
        }
        let name = chrom.as_bytes();
        let pos = self.find_data_pos(name);
        let n_data = self.data.len();
        let existing = pos < n_data;
        if existing {
            if !self.data[pos].1.write_mode {
                proof {
                    lemma_vlookup_at(self.data@, name@, pos as int);
                }
                return Err(HgIndexError::StringError(file_open_for_reading_message()));
            }
            proof {
                lemma_vlookup_at(self.data@, name@, pos as int);
            }
        } else {
            proof {
                lemma_vlookup_absent(self.data@, name@);
            }
        }
        // The frame will start where the buffer currently ends.
        let offset: u64 = if existing {
            self.data[pos].1.bytes.len() as u64
        } else {
            4
        };
        let payload = record.to_bytes();
        let length = payload.len() as u64;
        let ghost ix0 = self.index;
        let ghost ds0 = self.data@;
        let result = self.index.add_feature(chrom, start, end, offset, length);
        match result {
            Result::Err(e) => {
                proof {
                    assert(e matches HgIndexError::UnsortedFeatures { .. });
                    assert(self.data@ == ds0);
                    lemma_store_wf_same(ix0, self.index, ds0);
                }
                Err(e)
            },
            Result::Ok(_) => {
                let ghost f = Feature { start, end, index: offset, length };
                if existing {
                    let ghost ds_pre = self.data@;
                    proof {
                        lemma_vlookup_at(ds0, name@, pos as int);
                    }
                    append_frame(&mut self.data, pos, &payload, length);
                    let total = self.data[pos].1.bytes.len();
                    proof {
                        vstd::bytes::lemma_auto_spec_u64_to_from_le_bytes();
                        assert(self.data@[pos as int].1.spec_bytes().len() == total as nat);
                        assert(total as nat <= usize::MAX as nat);
                        assert(usize::MAX as nat <= u64::MAX as nat);
                        lemma_vlookup_update(ds_pre, self.data@, pos as int, name@);
                    }
                } else {
                    let mut buf: Vec<u8> = Vec::new();
                    buf.push(71u8);
                    buf.push(73u8);
                    buf.push(68u8);
                    buf.push(88u8);
                    let mut lenb = u64_to_le_bytes(length);
                    buf.append(&mut lenb);
                    buf.extend_from_slice(payload.as_slice());
                    let total = buf.len();
                    let ghost ds_pre = self.data@;
                    let key = crate::binning_index::slice_to_vec_u8(name);
                    let entry = (key, DataBuffer { write_mode: true, bytes: buf });
                    self.data.push(entry);
                    proof {
                        vstd::bytes::lemma_auto_spec_u64_to_from_le_bytes();
                        lemma_vlookup_push(ds_pre, entry);
                        lemma_vlookup_absent(ds_pre, name@);
                        assert(entry.1.spec_bytes().len() == total as nat);
                        assert(total as nat <= usize::MAX as nat);
                        assert(usize::MAX as nat <= u64::MAX as nat);
                        assert(entry.1.spec_bytes() =~= spec_magic() + spec_u64_to_le_bytes(
                            length,
                        ) + payload@);
                    }
                }
                proof {
                    lemma_add_record_wf(
                        ix0,
                        self.index,
                        ds0,
                        self.data@,
                        name@,
                        f,
                        payload@,
                        record.spec_start(),
                    );
                    let d2 = self.spec_data(name@).unwrap();
                    assert(frame_payload(d2, f) =~= payload@);
                }
                Ok(())
            },
        }
    }
}

/// The message reported when a finalized buffer is appended to.
fn file_open_for_reading_message() -> (r: String)
    ensures
        r@ == "File is open for reading"@,
{
    let s: &str = "File is open for reading";
    s.to_owned()
}

/// Append one frame to the buffer at `pos`.
fn append_frame(
    data: &mut Vec<(Vec<u8>, DataBuffer)>,
    pos: usize,
    payload: &Vec<u8>,
    length: u64,
)
    requires
        pos < old(data)@.len(),
        length == payload@.len() as u64,
    ensures
        final(data)@.len() == old(data)@.len(),
        forall|u: int| 0 <= u < old(data)@.len() && u != pos ==> (#[trigger] final(data)@[u])
            == old(data)@[u],
        final(data)@[pos as int].0 == old(data)@[pos as int].0,
        final(data)@[pos as int].1.spec_write_mode() == old(data)@[pos as int].1.spec_write_mode(),
        final(data)@[pos as int].1.spec_bytes() == old(data)@[pos as int].1.spec_bytes()
            + spec_u64_to_le_bytes(length) + payload@,
{
    let mut lenb = u64_to_le_bytes(length);
    data[pos].1.bytes.append(&mut lenb);
    data[pos].1.bytes.extend_from_slice(payload.as_slice());
}

/// A store whose index changed only in ways that leave every sequence
/// lookup and all data as they were keeps its invariant.
proof fn lemma_store_wf_same(ix0: BinningIndex, ix1: BinningIndex, ds: Seq<(Vec<u8>, DataBuffer)>)
    requires
        store_wf(ix0, ds),
        ix1.wf(),
        ix1.sequences@ == ix0.sequences@,
    ensures
        store_wf(ix1, ds),
{
    crate::binning_index::lemma_wf_implies_query_wf(&ix1);
}

/// Appending one record preserves the store invariant.
#[verifier::rlimit(30)]
proof fn lemma_add_record_wf(
    ix0: BinningIndex,
    ix1: BinningIndex,
    ds0: Seq<(Vec<u8>, DataBuffer)>,
    ds1: Seq<(Vec<u8>, DataBuffer)>,
    name: Seq<u8>,
    f: Feature,
    payload: Seq<u8>,
    rec_start: u32,
)
    requires
        store_wf(ix0, ds0),
        ix1.wf(),
        f.start == rec_start,
        f.length == payload.len(),
        // The index gained exactly `f` under `name`'s sequence.
        ix1.bins == ix0.bins,
        (forall|n2: Seq<u8>|
            n2 != name ==> seq_lookup(ix1.sequences@, n2) == seq_lookup(ix0.sequences@, n2)),
        seq_lookup(ix1.sequences@, name) matches Some(s2) && {
            let bid = ix0.bins.spec_region_to_bin(f.start, f.end) as u32;
            &&& s2.spec_last_start() == Some(f.start)
            &&& (match seq_lookup(ix0.sequences@, name) {
                Some(s1) => {
                    &&& crate::binning_index::assoc_lookup(s2.bins@, bid)
                        == crate::binning_index::assoc_lookup(s1.bins@, bid).push(f)
                    &&& (forall|b2: u32|
                        b2 != bid ==> crate::binning_index::assoc_lookup(s2.bins@, b2)
                            == crate::binning_index::assoc_lookup(s1.bins@, b2))
                    &&& (s1.spec_last_start() matches Some(p) ==> f.start >= p)
                },
                None => {
                    &&& crate::binning_index::assoc_lookup(s2.bins@, bid) == seq![f]
                    &&& (forall|b2: u32|
                        b2 != bid ==> crate::binning_index::assoc_lookup(s2.bins@, b2) == Seq::<
                            Feature,
                        >::empty())
                },
            })
        },
        // The data gained exactly the frame of `f` under `name`.
        (forall|n2: Seq<u8>|
            n2 != name ==> data_lookup(ds1, n2) == data_lookup(ds0, n2)),
        (forall|t1: int, t2: int|
            0 <= t1 < t2 < ds1.len() ==> (#[trigger] ds1[t1]).0@ != (#[trigger] ds1[t2]).0@),
        data_lookup(ds1, name) matches Some(h1) && h1.spec_bytes() == (match data_lookup(
            ds0,
            name,
        ) {
            Some(h0) => h0.spec_bytes(),
            None => spec_magic(),
        }) + spec_u64_to_le_bytes(f.length) + payload,
        f.index == (match data_lookup(ds0, name) {
            Some(h0) => h0.spec_bytes().len() as u64,
            None => 4,
        }),
        (match data_lookup(ds0, name) {
            Some(h0) => h0.spec_bytes().len() + 8 + payload.len() <= u64::MAX,
            None => 12 + payload.len() <= u64::MAX,
        }),
    ensures
        store_wf(ix1, ds1),
{
    vstd::bytes::lemma_auto_spec_u64_to_from_le_bytes();
    crate::binning_index::lemma_wf_implies_query_wf(&ix1);
    let bid = ix0.bins.spec_region_to_bin(f.start, f.end) as u32;
    let s2 = seq_lookup(ix1.sequences@, name).unwrap();
    let base = match data_lookup(ds0, name) {
        Some(h0) => h0.spec_bytes(),
        None => spec_magic(),
    };
    let h1 = data_lookup(ds1, name).unwrap();
    // Magic prefixes survive the append.
    assert forall|t: int| 0 <= t < ds1.len() implies (#[trigger] ds1[t]).1.spec_bytes().len() >= 4
        && ds1[t].1.spec_bytes().subrange(0, 4) == spec_magic() by {
        if ds1[t].0@ == name {
            lemma_vlookup_first(ds1, t);
            assert(ds1[t].1 == h1);
            match data_lookup(ds0, name) {
                Some(h0) => {
                    lemma_vlookup_some_at(ds0, name);
                    assert(base.len() >= 4 && base.subrange(0, 4) == spec_magic());
                },
                None => {
                    assert(spec_magic().subrange(0, 4) =~= spec_magic());
                    assert(base.len() >= 4 && base.subrange(0, 4) == spec_magic());
                },
            }
            assert(h1.spec_bytes().subrange(0, 4) =~= base.subrange(0, 4));
        } else {
            lemma_vlookup_first(ds1, t);
            assert(data_lookup(ds1, ds1[t].0@) == data_lookup(ds0, ds1[t].0@));
            lemma_vlookup_some_at(ds0, ds1[t].0@);
        }
    }
    // Per-sequence clauses.
    assert forall|n2: Seq<u8>|
        #![trigger seq_lookup(ix1.sequences@, n2)]
        match seq_lookup(ix1.sequences@, n2) {
            Some(seq) => {
                &&& offsets_follow_starts(&seq)
                &&& offsets_distinct(seq)
                &&& (match data_lookup(ds1, n2) {
                    Some(h) => frames_ok(h.spec_bytes(), seq),
                    None => !has_any_feature(seq),
                })
            },
            None => true,
        } by {
        if n2 != name {
            match seq_lookup(ix1.sequences@, n2) {
                Some(seq) => {
                    assert(seq_lookup(ix0.sequences@, n2) == Some(seq));
                    assert(data_lookup(ds1, n2) == data_lookup(ds0, n2));
                },
                None => {},
            }
        } else {
            lemma_add_record_seq_wf(ix0, ix1, ds0, ds1, name, f, payload);
        }
    }
}

/// The entry at `t`, when names are distinct, is what lookup finds.
proof fn lemma_vlookup_first(ds: Seq<(Vec<u8>, DataBuffer)>, t: int)
    requires
        0 <= t < ds.len(),
        forall|t1: int, t2: int|
            0 <= t1 < t2 < ds.len() ==> (#[trigger] ds[t1]).0@ != (#[trigger] ds[t2]).0@,
    ensures
        data_lookup(ds, ds[t].0@) == Some(ds[t].1),
{
    lemma_vlookup_at(ds, ds[t].0@, t);
}

/// A held name's lookup matches some entry.
proof fn lemma_vlookup_some_at(ds: Seq<(Vec<u8>, DataBuffer)>, name: Seq<u8>)
    requires
        data_lookup(ds, name) matches Some(h),
        forall|t: int|
            0 <= t < ds.len() ==> (#[trigger] ds[t]).1.spec_bytes().len() >= 4
                && ds[t].1.spec_bytes().subrange(0, 4) == spec_magic(),
    ensures
        data_lookup(ds, name) matches Some(h) && h.spec_bytes().len() >= 4
            && h.spec_bytes().subrange(0, 4) == spec_magic(),
    decreases ds.len(),
{
    if ds.len() > 0 {
        if ds[0].0@ == name {
        } else {
            assert forall|t: int|
                0 <= t < ds.drop_first().len() implies (
            #[trigger] ds.drop_first()[t]).1.spec_bytes().len() >= 4
                && ds.drop_first()[t].1.spec_bytes().subrange(0, 4) == spec_magic() by {
                assert(ds.drop_first()[t] == ds[t + 1]);
            }
            lemma_vlookup_some_at(ds.drop_first(), name);
        }
    }
}

/// The updated sequence keeps sound frames, start-following offsets, and
/// distinct offsets.
#[verifier::rlimit(50)]
proof fn lemma_add_record_seq_wf(
    ix0: BinningIndex,
    ix1: BinningIndex,
    ds0: Seq<(Vec<u8>, DataBuffer)>,
    ds1: Seq<(Vec<u8>, DataBuffer)>,
    name: Seq<u8>,
    f: Feature,
    payload: Seq<u8>,
)
    requires
        store_wf(ix0, ds0),
        ix1.wf(),
        f.length == payload.len(),
        ix1.bins == ix0.bins,
        seq_lookup(ix1.sequences@, name) matches Some(s2) && {
            let bid = ix0.bins.spec_region_to_bin(f.start, f.end) as u32;
            &&& s2.spec_last_start() == Some(f.start)
            &&& (match seq_lookup(ix0.sequences@, name) {
                Some(s1) => {
                    &&& crate::binning_index::assoc_lookup(s2.bins@, bid)
                        == crate::binning_index::assoc_lookup(s1.bins@, bid).push(f)
                    &&& (forall|b2: u32|
                        b2 != bid ==> crate::binning_index::assoc_lookup(s2.bins@, b2)
                            == crate::binning_index::assoc_lookup(s1.bins@, b2))
                    &&& (s1.spec_last_start() matches Some(p) ==> f.start >= p)
                },
                None => {
                    &&& crate::binning_index::assoc_lookup(s2.bins@, bid) == seq![f]
                    &&& (forall|b2: u32|
                        b2 != bid ==> crate::binning_index::assoc_lookup(s2.bins@, b2) == Seq::<
                            Feature,
                        >::empty())
                },
            })
        },
        data_lookup(ds1, name) matches Some(h1) && h1.spec_bytes() == (match data_lookup(
            ds0,
            name,
        ) {
            Some(h0) => h0.spec_bytes(),
            None => spec_magic(),
        }) + spec_u64_to_le_bytes(f.length) + payload,
        f.index == (match data_lookup(ds0, name) {
            Some(h0) => h0.spec_bytes().len() as u64,
            None => 4,
        }),
        (match data_lookup(ds0, name) {
            Some(h0) => h0.spec_bytes().len() + 8 + payload.len() <= u64::MAX,
            None => 12 + payload.len() <= u64::MAX,
        }),
    ensures
        seq_lookup(ix1.sequences@, name) matches Some(s2x) && {
            &&& offsets_follow_starts(&s2x)
            &&& offsets_distinct(s2x)
            &&& (match data_lookup(ds1, name) {
                Some(h) => frames_ok(h.spec_bytes(), s2x),
                None => !has_any_feature(s2x),
            })
        },
{
    vstd::bytes::lemma_auto_spec_u64_to_from_le_bytes();
    let bid = ix0.bins.spec_region_to_bin(f.start, f.end) as u32;
    let s2 = seq_lookup(ix1.sequences@, name).unwrap();
    let h1 = data_lookup(ds1, name).unwrap();
    let base = match data_lookup(ds0, name) {
        Some(h0) => h0.spec_bytes(),
        None => spec_magic(),
    };
    // A position in the new sequence is either an old feature or `f`,
    // and old features' frames end at or before `base.len() == f.index`.
    assert forall|b: u32, i: int|
        #![trigger stored_at(&s2, b, i)]
        valid_pos(&s2, b, i) implies (stored_at(&s2, b, i) == f && b == bid && i
        == crate::binning_index::assoc_lookup(s2.bins@, bid).len() - 1) || (
    old_pos_ok(ix0, name, b, i) && stored_at(&s2, b, i).index + 8 + stored_at(&s2, b, i).length
        <= base.len() && stored_at(&s2, b, i).index + 8 + stored_at(&s2, b, i).length
        <= h1.spec_bytes().len() && frame_ok(h1.spec_bytes(), stored_at(&s2, b, i))
        && stored_at(&s2, b, i).start <= f.start) by {
        match seq_lookup(ix0.sequences@, name) {
            Some(s1) => {
                if b == bid && i == crate::binning_index::assoc_lookup(s2.bins@, bid).len() - 1 {
                    assert(stored_at(&s2, b, i) == f);
                } else {
                    let g = stored_at(&s2, b, i);
                    assert(valid_pos(&s1, b, i) && stored_at(&s1, b, i) == g);
                    assert(frame_ok(base, g));
                    assert(g.start <= f.start) by {
                        lemma_seq_wf_of(&ix0, name);
                        assert(s1.wf(&ix0.bins));
                        lemma_stored_start_le(&s1, &ix0.bins, b, i);
                        assert(s1.spec_last_start() matches Some(p) && g.start <= p && f.start >= p);
                    }
                    lemma_frame_extend(base, h1.spec_bytes(), g);
                }
            },
            None => {
                assert(crate::binning_index::assoc_lookup(s2.bins@, bid) == seq![f]);
                if b == bid {
                    assert(i == 0);
                    assert(stored_at(&s2, b, i) == f);
                } else {
                    assert(crate::binning_index::assoc_lookup(s2.bins@, b) == Seq::<
                        Feature,
                    >::empty());
                }
            },
        }
    }
    // The new frame itself is sound.
    assert(base.len() + 8 + payload.len() <= u64::MAX);
    assert(f.index as int == base.len() as int) by {
        match data_lookup(ds0, name) {
            Some(h0) => {},
            None => {
                assert(spec_magic().len() == 4);
            },
        }
    }
    assert(frame_ok(h1.spec_bytes(), f)) by {
        assert(h1.spec_bytes().len() == base.len() + 8 + payload.len());
        assert(h1.spec_bytes().subrange(f.index as int, f.index as int + 8)
            =~= spec_u64_to_le_bytes(f.length));
    }
    assert(frames_ok(h1.spec_bytes(), s2));
    // Offsets follow starts and never repeat.
    assert forall|b1: u32, i1: int, b2: u32, i2: int|
        #![trigger stored_at(&s2, b1, i1), stored_at(&s2, b2, i2)]
        valid_pos(&s2, b1, i1) && valid_pos(&s2, b2, i2) implies ((stored_at(&s2, b1, i1).start
        < stored_at(&s2, b2, i2).start ==> stored_at(&s2, b1, i1).index <= stored_at(
        &s2,
        b2,
        i2,
    ).index) && ((b1 != b2 || i1 != i2) ==> stored_at(&s2, b1, i1).index != stored_at(
        &s2,
        b2,
        i2,
    ).index)) by {
        let g1 = stored_at(&s2, b1, i1);
        let g2 = stored_at(&s2, b2, i2);
        let is_new_1 = g1 == f && b1 == bid && i1 == crate::binning_index::assoc_lookup(
            s2.bins@,
            bid,
        ).len() - 1;
        let is_new_2 = g2 == f && b2 == bid && i2 == crate::binning_index::assoc_lookup(
            s2.bins@,
            bid,
        ).len() - 1;
        if is_new_1 && is_new_2 {
        } else if is_new_1 {
            // g2 is old: g2.index < f.index and g2.start <= f.start.
            assert(g2.index + 8 + g2.length <= base.len());
            assert(f.start < g2.start ==> false);
        } else if is_new_2 {
            assert(g1.index + 8 + g1.length <= base.len());
        } else {
            match seq_lookup(ix0.sequences@, name) {
                Some(s1) => {
                    assert(valid_pos(&s1, b1, i1) && stored_at(&s1, b1, i1) == g1);
                    assert(valid_pos(&s1, b2, i2) && stored_at(&s1, b2, i2) == g2);
                    assert(offsets_follow_starts(&s1) && offsets_distinct(s1));
                },
                None => {},
            }
        }
    }
}

/// Whether `(b, i)` was already a stored position under `name` before the
/// append.
pub open spec fn old_pos_ok(ix0: BinningIndex, name: Seq<u8>, b: u32, i: int) -> bool {
    match seq_lookup(ix0.sequences@, name) {
        Some(s1) => valid_pos(&s1, b, i),
        None => false,
    }
}

/// A frame sound in a buffer stays sound when the buffer grows.
proof fn lemma_frame_extend(base: Seq<u8>, grown: Seq<u8>, f: Feature)
    requires
        frame_ok(base, f),
        grown.len() >= base.len(),
        forall|k: int| 0 <= k < base.len() ==> grown[k] == base[k],
    ensures
        frame_ok(grown, f),
{
    assert(grown.subrange(f.index as int, f.index as int + 8) =~= base.subrange(
        f.index as int,
        f.index as int + 8,
    ));
}

/// Fetch one sequence's well-formedness out of the index invariant.
proof fn lemma_seq_wf_of(ix: &BinningIndex, name: Seq<u8>)
    requires
        ix.wf(),
        seq_lookup(ix.sequences@, name) matches Some(s),
    ensures
        seq_lookup(ix.sequences@, name) matches Some(s) && s.wf(&ix.bins),
    decreases ix.sequences@.len(),
{
    lemma_seq_lookup_entry(ix.sequences@, name);
    let t = choose|t: int| 0 <= t < ix.sequences@.len() && (#[trigger] ix.sequences@[t]).0@ == name
        && seq_lookup(ix.sequences@, name) == Some(ix.sequences@[t].1);
    assert(ix.sequences@[t].1.wf(&ix.bins));
}

/// A successful lookup names some entry.
proof fn lemma_seq_lookup_entry(seqs: Seq<(Vec<u8>, SequenceIndex)>, name: Seq<u8>)
    requires
        seq_lookup(seqs, name) matches Some(s),
    ensures
        exists|t: int| 0 <= t < seqs.len() && (#[trigger] seqs[t]).0@ == name && seq_lookup(
            seqs,
            name,
        ) == Some(seqs[t].1),
    decreases seqs.len(),
{
    if seqs[0].0@ == name {
        assert(seqs[0].0@ == name && seq_lookup(seqs, name) == Some(seqs[0].1));
    } else {
        lemma_seq_lookup_entry(seqs.drop_first(), name);
        let t = choose|t: int| 0 <= t < seqs.drop_first().len() && (
        #[trigger] seqs.drop_first()[t]).0@ == name && seq_lookup(seqs.drop_first(), name)
            == Some(seqs.drop_first()[t].1);
        assert(seqs[t + 1].0@ == name && seq_lookup(seqs, name) == Some(seqs[t + 1].1));
    }
}

/// An old stored feature starts no later than the sequence's last start.
proof fn lemma_stored_start_le(s1: &SequenceIndex, hb: &crate::binning::HierarchicalBins, b: u32, i: int)
    requires
        s1.wf_features(hb),
        s1.wf_keys(),
        valid_pos(s1, b, i),
    ensures
        s1.spec_last_start() matches Some(p) && stored_at(s1, b, i).start <= p,
{
    crate::binning_index::lemma_stored_feature_ok(s1, hb, b, i);
}



/// A callback the streaming read path hands each overlapping record's
/// payload bytes, one at a time and in result order.  The spec-level
/// trace `seen` records the payloads accepted so far, so the read path
/// can state exactly what the visitor received.
pub trait RecordVisitor {
    /// The payloads this visitor has accepted so far, in order.  The
    /// default trace stays empty; a visitor that wants the read path's
    /// guarantees overrides it with its own state.
    open spec fn seen(&self) -> Seq<Seq<u8>> {
        Seq::empty()
    }

    /// The error this visitor aborted with, if any.  A visitor that can
    /// abort overrides this with its own state; the read path reports
    /// that very error.
    open spec fn failed(&self) -> Option<HgIndexError> {
        None
    }

    /// Receive one record's payload.  Accepting appends the payload to
    /// the trace; an error aborts the iteration, records no payload, and
    /// is remembered as the failure.
    fn visit(&mut self, payload: &[u8]) -> (r: Result<(), HgIndexError>)
        ensures
            r is Ok ==> final(self).seen() == old(self).seen().push(payload@)
                && final(self).failed() == old(self).failed(),
            r matches Err(e) ==> final(self).seen() == old(self).seen() && final(self).failed()
                == Some(e),
    ;
}

/// A visitor that copies every payload it is handed, in order, and
/// never aborts.
pub struct PayloadCollector {
    /// The collected payloads.
    pub out: Vec<Vec<u8>>,
}

impl PayloadCollector {
    /// An empty collector.
    pub fn new() -> (r: Self)
        ensures
            r.seen() == Seq::<Seq<u8>>::empty(),
    {
        let r = PayloadCollector { out: Vec::new() };
        proof {
            assert(r.seen() =~= Seq::<Seq<u8>>::empty());
        }
        r
    }
}

impl RecordVisitor for PayloadCollector {
    open spec fn seen(&self) -> Seq<Seq<u8>> {
        Seq::new(self.out@.len(), |k: int| self.out@[k]@)
    }

    fn visit(&mut self, payload: &[u8]) -> (r: Result<(), HgIndexError>) {
        self.out.push(slice_to_vec(payload));
        proof {
            assert(self.seen() =~= old(self).seen().push(payload@));
        }
        Ok(())
    }
}

impl<T: Record> GenomicDataStore<T> {
    /// The payload byte ranges a query resolves to once its candidates
    /// pass the bounds checks.  All three read paths answer against this
    /// one sequence: `get_overlapping` decodes exactly these payloads in
    /// order, `get_overlapping_batch` returns these very byte ranges, and
    /// `map_overlapping` visits them and reports their count — so the
    /// three paths agree on every query.
    pub open spec fn spec_query_payloads(&self, name: Seq<u8>, start: u32, end: u32) -> Seq<
        Seq<u8>,
    > {
        match self.spec_data(name) {
            Some(d) => spec_payloads(
                d,
                self.spec_index().spec_find_overlapping(name, start, end),
            ),
            None => Seq::empty(),
        }
    }

    /// Whether a query can reach a sequence's records: the sequence is
    /// indexed and its data is attached in read mode.
    pub open spec fn spec_readable(&self, name: Seq<u8>) -> bool {
        &&& seq_lookup(self.spec_index().sequences@, name).is_some()
        &&& self.spec_data(name).is_some()
        &&& !self.spec_write_mode(name)
    }

    /// Resolve a query to borrowed payload slices, zero-copy.
    pub fn get_overlapping_batch<'a>(&'a self, chrom: &str, start: u32, end: u32) -> (r: Result<
        Vec<&'a [u8]>,
        HgIndexError,
    >)
        requires
            self.query_wf(),
        ensures
            end <= start <==> r == Err::<Vec<&'a [u8]>, HgIndexError>(
                HgIndexError::InvalidInterval { start, end },
            ),
            match r {
                Result::Ok(v) => {
                    let name = chrom.spec_bytes();
                    &&& end > start
                    &&& (self.spec_readable(name) ==> {
                        let pays = self.spec_query_payloads(name, start, end);
                        &&& v@.len() == pays.len()
                        &&& (forall|k: int| 0 <= k < v@.len() ==> (#[trigger] v@[k])@ == pays[k])
                    })
                    &&& (!self.spec_readable(name) ==> v@.len() == 0)
                },
                Result::Err(e) => end <= start || (e matches HgIndexError::StringError(_)
                    && self.spec_write_mode(chrom.spec_bytes()) && seq_lookup(
                    self.spec_index().sequences@,
                    chrom.spec_bytes(),
                ).is_some()),
            },
    {
        if end <= start {
            return Err(HgIndexError::InvalidInterval { start, end });
        }
        let name = chrom.as_bytes();
        match self.index.get_sequence_index(chrom) {
            Some(_) => {},
            None => {
                return Ok(Vec::new());
            },
        }
        let dpos = self.find_data_pos(name);
        if dpos == self.data.len() {
            proof {
                lemma_vlookup_absent(self.data@, name@);
            }
            return Ok(Vec::new());
        }
        proof {
            lemma_vlookup_at(self.data@, name@, dpos as int);
        }
        if self.data[dpos].1.write_mode {
            return Err(HgIndexError::StringError(file_open_for_writing_message()));
        }
        let offsets = self.index.find_overlapping(chrom, start, end);
        let buf = &self.data[dpos].1.bytes;
        let ghost d = buf@;
        let ghost cands = offsets@;
        let ncand = offsets.len();
        let mut results: Vec<&'a [u8]> = Vec::new();
        let mut i: usize = 0;
        while i < ncand
            invariant
                i <= ncand,
                ncand == cands.len(),
                offsets@ == cands,
                buf@ == d,
                results@.len() == spec_payloads(d, cands.take(i as int)).len(),
                forall|k: int| 0 <= k < results@.len() ==> (#[trigger] results@[k])@
                    == spec_payloads(d, cands.take(i as int))[k],
            decreases ncand - i,
        {
            let (offset, length) = offsets[i];
            let dlen: u64 = buf.len() as u64;
            proof {
                assert(cands.take(i as int + 1).drop_last() =~= cands.take(i as int));
                assert(cands.take(i as int + 1).last() == cands[i as int]);
            }
            if offset <= dlen && dlen - offset >= 8 && length <= dlen - offset - 8 {
                let o = offset as usize;
                let l = length as usize;
                let s = slice_subrange(buf.as_slice(), o + 8, o + 8 + l);
                results.push(s);
            }
            i = i + 1;
        }
        proof {
            assert(cands.take(ncand as int) =~= cands);
        }
        Ok(results)
    }

    /// Resolve a query to owned records, decoding each surviving frame.
    pub fn get_overlapping(&self, chrom: &str, start: u32, end: u32) -> (r: Result<
        Vec<T>,
        HgIndexError,
    >)
        requires
            self.query_wf(),
        ensures
            end <= start <==> r == Err::<Vec<T>, HgIndexError>(
                HgIndexError::InvalidInterval { start, end },
            ),
            match r {
                Result::Ok(v) => {
                    let name = chrom.spec_bytes();
                    &&& end > start
                    &&& (self.spec_readable(name) ==> {
                        let pays = self.spec_query_payloads(name, start, end);
                        &&& v@.len() == pays.len()
                        &&& (forall|k: int|
                            0 <= k < v@.len() ==> ((exists|x: T|
                                pays[k] == #[trigger] x.spec_to_bytes()) ==> (
                            #[trigger] v@[k]).spec_to_bytes() == pays[k]))
                    })
                    &&& (!self.spec_readable(name) ==> v@.len() == 0)
                },
                Result::Err(e) => end <= start || (e matches HgIndexError::StringError(_)
                    && self.spec_write_mode(chrom.spec_bytes()) && seq_lookup(
                    self.spec_index().sequences@,
                    chrom.spec_bytes(),
                ).is_some()),
            },
    {
        let slices = match self.get_overlapping_batch(chrom, start, end) {
            Ok(v) => v,
            Err(e) => {
                return Err(e);
            },
        };
        let n = slices.len();
        let mut results: Vec<T> = Vec::new();
        let mut i: usize = 0;
        while i < n
            invariant
                i <= n,
                n == slices@.len(),
                results@.len() == i,
                forall|k: int| 0 <= k < i ==> ((exists|x: T|
                    (#[trigger] slices@[k])@ == #[trigger] x.spec_to_bytes()) ==> results@[k].spec_to_bytes()
                    == slices@[k]@),
            decreases n - i,
        {
            let rec = T::from_bytes(slices[i]);
            results.push(rec);
            i = i + 1;
        }
        proof {
            if self.spec_readable(chrom.spec_bytes()) {
                let pays = self.spec_query_payloads(chrom.spec_bytes(), start, end);
                assert forall|k: int| 0 <= k < results@.len() implies ((exists|x: T|
                    pays[k] == #[trigger] x.spec_to_bytes()) ==> (
                #[trigger] results@[k]).spec_to_bytes() == pays[k]) by {
                    assert(slices@[k]@ == pays[k]);
                }
            }
        }
        Ok(results)
    }

    /// Stream each overlapping record's payload to a visitor, in result
    /// order; returns how many records the visitor accepted, which is
    /// all of them unless it aborted.  The visitor's trace pins what was
    /// received: on success, exactly the query's payloads, in order; on
    /// a visitor abort, exactly the payloads before the failing one.
    pub fn map_overlapping<F: RecordVisitor>(
        &self,
        chrom: &str,
        start: u32,
        end: u32,
        fun: &mut F,
    ) -> (r: Result<usize, HgIndexError>)
        requires
            self.query_wf(),
        ensures
            end <= start ==> r == Err::<usize, HgIndexError>(
                HgIndexError::InvalidInterval { start, end },
            ),
            match r {
                Result::Ok(n) => {
                    let name = chrom.spec_bytes();
                    let pays = self.spec_query_payloads(name, start, end);
                    &&& end > start
                    &&& final(fun).failed() == old(fun).failed()
                    &&& (self.spec_readable(name) ==> n == pays.len() && final(fun).seen() == old(
                        fun,
                    ).seen() + pays)
                    &&& (!self.spec_readable(name) ==> n == 0 && *final(fun) == *old(fun))
                },
                Result::Err(e) => {
                    let name = chrom.spec_bytes();
                    let pays = self.spec_query_payloads(name, start, end);
                    ||| (end <= start && e == HgIndexError::InvalidInterval { start, end }
                        && *final(fun) == *old(fun))
                    ||| (end > start && (e matches HgIndexError::StringError(_))
                        && self.spec_write_mode(name) && seq_lookup(
                        self.spec_index().sequences@,
                        name,
                    ).is_some() && *final(fun) == *old(fun))
                    // A visitor abort: the earlier candidates were
                    // visited in order, and the error is the visitor's.
                    ||| (end > start && self.spec_readable(name) && final(fun).failed() == Some(e)
                        && (exists|k: int|
                        0 <= k < pays.len() && final(fun).seen() == old(fun).seen()
                            + #[trigger] pays.take(k)))
                },
            },
    {
        let slices = match self.get_overlapping_batch(chrom, start, end) {
            Ok(v) => v,
            Err(e) => {
                return Err(e);
            },
        };
        let n = slices.len();
        let ghost seen0 = fun.seen();
        let ghost views = Seq::new(slices@.len(), |k: int| slices@[k]@);
        proof {
            if self.spec_readable(chrom.spec_bytes()) {
                assert(views =~= self.spec_query_payloads(chrom.spec_bytes(), start, end));
            }
            assert(views.take(0) =~= Seq::<Seq<u8>>::empty());
            assert(seen0 + views.take(0) =~= seen0);
        }
        let mut count: usize = 0;
        let mut i: usize = 0;
        while i < n
            invariant
                i <= n,
                count == i,
                n == slices@.len(),
                start < end,
                views.len() == n,
                forall|k: int| 0 <= k < n ==> views[k] == (#[trigger] slices@[k])@,
                fun.seen() == seen0 + views.take(i as int),
                seen0 == old(fun).seen(),
                fun.failed() == old(fun).failed(),
                i == 0 ==> *fun == *old(fun),
                self.spec_readable(chrom.spec_bytes()) ==> views == self.spec_query_payloads(
                    chrom.spec_bytes(),
                    start,
                    end,
                ),
                !self.spec_readable(chrom.spec_bytes()) ==> n == 0,
            decreases n - i,
        {
            proof {
                assert(views.take(i as int + 1) =~= views.take(i as int).push(views[i as int]));
                assert(seen0 + views.take(i as int) =~= fun.seen());
            }
            match fun.visit(slices[i]) {
                Ok(_) => {
                    proof {
                        assert(fun.seen() =~= seen0 + views.take(i as int + 1));
                    }
                },
                Err(e) => {
                    proof {
                        if self.spec_readable(chrom.spec_bytes()) {
                            let pays = self.spec_query_payloads(chrom.spec_bytes(), start, end);
                            assert(views =~= pays);
                            assert(fun.seen() =~= seen0 + pays.take(i as int));
                        } else {
                            assert(false);
                        }
                    }
                    return Err(e);
                },
            }
            count = count + 1;
            i = i + 1;
        }
        proof {
            if self.spec_readable(chrom.spec_bytes()) {
                let pays = self.spec_query_payloads(chrom.spec_bytes(), start, end);
                assert(views =~= pays);
                assert(views.take(n as int) =~= views);
            } else {
                assert(views.take(0) =~= Seq::<Seq<u8>>::empty());
                assert(fun.seen() =~= seen0);
            }
        }
        Ok(count)
    }

    /// Close the pack session's writers and produce the bytes of the
    /// index file; the store stays queryable.
    pub fn finalize(&mut self) -> (r: Vec<u8>)
        requires
            old(self).wf(),
        ensures
            final(self).wf(),
            final(self).spec_index() == old(self).spec_index(),
            final(self).spec_metadata() == old(self).spec_metadata(),
            forall|n: Seq<u8>| final(self).spec_data(n) == (match old(self).spec_data(n) {
                Some(d) => Some(d),
                None => None::<Seq<u8>>,
            }),
            forall|n: Seq<u8>| !final(self).spec_write_mode(n),
            r@ == ser_index_file(final(self).spec_index(), final(self).spec_metadata()),
    {
        let n = self.data.len();
        let mut t: usize = 0;
        while t < n
            invariant
                t <= n,
                n == self.data@.len(),
                self.index == old(self).index,
                self.metadata == old(self).metadata,
                forall|u: int| 0 <= u < n ==> (#[trigger] self.data@[u]).0 == old(
                    self,
                ).data@[u].0 && self.data@[u].1.spec_bytes() == old(self).data@[u].1.spec_bytes(),
                forall|u: int| 0 <= u < t ==> !(#[trigger] self.data@[u]).1.spec_write_mode(),
            decreases n - t,
        {
            self.data[t].1.write_mode = false;
            t = t + 1;
        }
        proof {
            lemma_data_pointwise(old(self).data@, self.data@);
            lemma_store_wf_data_bytes_same(old(self).index, old(self).data@, self.data@);
            lemma_all_modes_false(self.data@);
        }
        serialize_index(&self.index, &self.metadata)
    }

    /// Like `finalize`, with an opaque caller-metadata blob appended
    /// after the index proper.
    pub fn finalize_with_metadata(&mut self, metadata: &[u8]) -> (r: Vec<u8>)
        requires
            old(self).wf(),
        ensures
            final(self).wf(),
            final(self).spec_index() == old(self).spec_index(),
            final(self).spec_metadata() == Some(metadata@),
            forall|n: Seq<u8>| final(self).spec_data(n) == (match old(self).spec_data(n) {
                Some(d) => Some(d),
                None => None::<Seq<u8>>,
            }),
            forall|n: Seq<u8>| !final(self).spec_write_mode(n),
            r@ == ser_index_file(final(self).spec_index(), final(self).spec_metadata()),
    {
        self.metadata = Some(slice_to_vec(metadata));
        self.finalize()
    }

    /// The metadata blob the store was finalized or opened with, if any.
    pub fn metadata(&self) -> (r: Option<Vec<u8>>)
        ensures
            match (r, self.spec_metadata()) {
                (Some(v), Some(m)) => v@ == m,
                (None, None) => true,
                _ => false,
            },
    {
        match &self.metadata {
            Some(m) => Some(m.clone()),
            None => None,
        }
    }

    /// Open a store from the bytes of its index file.  Data buffers are
    /// not attached until first use.  Opening succeeds on every file the
    /// serializer writes for an index with valid linear shifts, and the
    /// parsed index re-serializes to the very input bytes — which, with
    /// `lemma_serialization_injective`, identifies it with the index
    /// that was written.
    pub fn open(index_bytes: &[u8]) -> (r: Result<Self, HgIndexError>)
        ensures
            match r {
                Result::Ok(s) => {
                    &&& s.query_wf()
                    &&& index_bytes@ == ser_index_file(s.spec_index(), s.spec_metadata())
                    &&& (forall|n: Seq<u8>| s.spec_data(n).is_none())
                },
                Result::Err(e) => {
                    &&& e == HgIndexError::DeserializationError
                    &&& !(exists|ix2: crate::binning_index::BinningIndex, m2: Option<Seq<u8>>|
                        #[trigger] crate::persist::parsable_index(ix2, m2, index_bytes@))
                },
            },
    {
        let (index, metadata) = match deserialize_index(index_bytes) {
            Ok(v) => v,
            Err(e) => {
                return Err(e);
            },
        };
        let r = GenomicDataStore {
            index,
            data: Vec::new(),
            metadata,
            _marker: core::marker::PhantomData,
        };
        Ok(r)
    }

    /// Attach a sequence's data bytes for reading, verifying the magic.
    /// Attaching a sequence that already has a buffer changes nothing.
    pub fn open_chrom_file(&mut self, chrom: &str, data: Vec<u8>) -> (r: Result<
        (),
        HgIndexError,
    >)
        requires
            old(self).query_wf(),
        ensures
            final(self).query_wf(),
            final(self).spec_index() == old(self).spec_index(),
            final(self).spec_metadata() == old(self).spec_metadata(),
            match r {
                Result::Ok(_) => {
                    let name = chrom.spec_bytes();
                    &&& (old(self).spec_data(name) matches Some(_) ==> final(self).spec_data(name)
                        == old(self).spec_data(name))
                    &&& (old(self).spec_data(name).is_none() ==> {
                        &&& data@.len() >= 4 && data@.subrange(0, 4) == spec_magic()
                        &&& final(self).spec_data(name) == Some(data@)
                        &&& !final(self).spec_write_mode(name)
                    })
                    &&& (forall|n2: Seq<u8>|
                        n2 != name ==> final(self).spec_data(n2) == old(self).spec_data(n2))
                },
                Result::Err(e) => {
                    &&& e == HgIndexError::InvalidFileFormat
                    &&& old(self).spec_data(chrom.spec_bytes()).is_none()
                    &&& !(data@.len() >= 4 && data@.subrange(0, 4) == spec_magic())
                    &&& (forall|n2: Seq<u8>| final(self).spec_data(n2) == old(self).spec_data(n2))
                },
            },
    {
        let name = chrom.as_bytes();
        let pos = self.find_data_pos(name);
        if pos < self.data.len() {
            proof {
                lemma_vlookup_at(self.data@, name@, pos as int);
            }
            return Ok(());
        }
        proof {
            lemma_vlookup_absent(self.data@, name@);
        }
        let magic_ok = data.len() >= 4 && data[0] == 71u8 && data[1] == 73u8 && data[2] == 68u8
            && data[3] == 88u8;
        if !magic_ok {
            proof {
                if data@.len() >= 4 {
                    assert(data@.subrange(0, 4) == spec_magic() ==> (data@[0] == 71 && data@[1]
                        == 73 && data@[2] == 68 && data@[3] == 88)) by {
                        if data@.subrange(0, 4) == spec_magic() {
                            assert(data@.subrange(0, 4)[0] == 71);
                            assert(data@.subrange(0, 4)[1] == 73);
                            assert(data@.subrange(0, 4)[2] == 68);
                            assert(data@.subrange(0, 4)[3] == 88);
                        }
                    }
                }
            }
            return Err(HgIndexError::InvalidFileFormat);
        }
        proof {
            assert(data@.subrange(0, 4) =~= spec_magic());
        }
        let ghost ds_pre = self.data@;
        let key = crate::binning_index::slice_to_vec_u8(name);
        let entry = (key, DataBuffer { write_mode: false, bytes: data });
        self.data.push(entry);
        proof {
            lemma_vlookup_push(ds_pre, entry);
        }
        Ok(())
    }

    /// The raw data bytes held for a sequence, for the embedder to
    /// persist.
    pub fn data_bytes<'a>(&'a self, chrom: &str) -> (r: Option<&'a Vec<u8>>)
        ensures
            match (r, self.spec_data(chrom.spec_bytes())) {
                (Some(v), Some(d)) => v@ == d,
                (None, None) => true,
                _ => false,
            },
    {
        let name = chrom.as_bytes();
        let pos = self.find_data_pos(name);
        if pos < self.data.len() {
            proof {
                lemma_vlookup_at(self.data@, name@, pos as int);
            }
            Some(&self.data[pos].1.bytes)
        } else {
            proof {
                lemma_vlookup_absent(self.data@, name@);
            }
            None
        }
    }

    /// The names of all sequences holding data, in creation order.
    pub fn sequence_names(&self) -> (r: Vec<Vec<u8>>)
        ensures
            r@.len() == self.spec_index().sequences@.len(),
            forall|t: int| 0 <= t < r@.len() ==> (#[trigger] r@[t])@
                == self.spec_index().sequences@[t].0@,
    {
        let n = self.index.sequences.len();
        let mut names: Vec<Vec<u8>> = Vec::new();
        let mut t: usize = 0;
        while t < n
            invariant
                t <= n,
                n == self.index.sequences@.len(),
                names@.len() == t,
                forall|u: int| 0 <= u < t ==> (#[trigger] names@[u])@
                    == self.index.sequences@[u].0@,
            decreases n - t,
        {
            names.push(crate::binning_index::slice_to_vec_u8(self.index.sequences[t].0.as_slice()));
            t = t + 1;
        }
        names
    }
}

/// The message reported when a finalized store is appended to.
fn file_open_for_writing_message() -> (r: String)
    ensures
        r@ == "File is open for writing"@,
{
    let s: &str = "File is open for writing";
    s.to_owned()
}

/// When no entry is in write mode, no lookup finds one.
proof fn lemma_all_modes_false(ds: Seq<(Vec<u8>, DataBuffer)>)
    requires
        forall|t: int| 0 <= t < ds.len() ==> !(#[trigger] ds[t]).1.spec_write_mode(),
    ensures
        forall|n: Seq<u8>| #![trigger data_lookup(ds, n)] match data_lookup(ds, n) {
            Some(h) => !h.spec_write_mode(),
            None => true,
        },
    decreases ds.len(),
{
    if ds.len() > 0 {
        assert forall|t: int| 0 <= t < ds.drop_first().len() implies !(
        #[trigger] ds.drop_first()[t]).1.spec_write_mode() by {
            assert(ds.drop_first()[t] == ds[t + 1]);
        }
        lemma_all_modes_false(ds.drop_first());
        assert forall|n: Seq<u8>| #![trigger data_lookup(ds, n)] match data_lookup(ds, n) {
            Some(h) => !h.spec_write_mode(),
            None => true,
        } by {
            if ds[0].0@ != n {
                assert(data_lookup(ds, n) == data_lookup(ds.drop_first(), n));
            }
        }
    }
}

/// Pointwise equal names and bytes give pointwise related entries.
proof fn lemma_data_pointwise(ds0: Seq<(Vec<u8>, DataBuffer)>, ds1: Seq<(Vec<u8>, DataBuffer)>)
    requires
        ds1.len() == ds0.len(),
        forall|u: int| 0 <= u < ds0.len() ==> (#[trigger] ds1[u]).0 == ds0[u].0
            && ds1[u].1.spec_bytes() == ds0[u].1.spec_bytes(),
    ensures
        forall|n: Seq<u8>| #![trigger data_lookup(ds1, n)] match (data_lookup(ds0, n), data_lookup(ds1, n)) {
            (Some(h0), Some(h1)) => h1.spec_bytes() == h0.spec_bytes(),
            (None, None) => true,
            _ => false,
        },
    decreases ds0.len(),
{
    if ds0.len() > 0 {
        assert forall|u: int| 0 <= u < ds0.drop_first().len() implies (
        #[trigger] ds1.drop_first()[u]).0 == ds0.drop_first()[u].0
            && ds1.drop_first()[u].1.spec_bytes() == ds0.drop_first()[u].1.spec_bytes() by {
            assert(ds1.drop_first()[u] == ds1[u + 1]);
            assert(ds0.drop_first()[u] == ds0[u + 1]);
        }
        lemma_data_pointwise(ds0.drop_first(), ds1.drop_first());
        assert forall|n: Seq<u8>| #![trigger data_lookup(ds1, n)] match (data_lookup(ds0, n), data_lookup(ds1, n)) {
            (Some(h0), Some(h1)) => h1.spec_bytes() == h0.spec_bytes(),
            (None, None) => true,
            _ => false,
        } by {
            if ds0[0].0@ == n {
            } else {
                assert(ds1[0].0@ != n);
                assert(data_lookup(ds0, n) == data_lookup(ds0.drop_first(), n));
                assert(data_lookup(ds1, n) == data_lookup(ds1.drop_first(), n));
            }
        }
    }
}

/// The store invariant only reads the data bytes, never the modes.
proof fn lemma_store_wf_data_bytes_same(
    ix: BinningIndex,
    ds0: Seq<(Vec<u8>, DataBuffer)>,
    ds1: Seq<(Vec<u8>, DataBuffer)>,
)
    requires
        store_wf(ix, ds0),
        ds1.len() == ds0.len(),
        forall|u: int| 0 <= u < ds0.len() ==> (#[trigger] ds1[u]).0 == ds0[u].0
            && ds1[u].1.spec_bytes() == ds0[u].1.spec_bytes(),
    ensures
        store_wf(ix, ds1),
{
    lemma_data_pointwise(ds0, ds1);
    assert forall|t1: int, t2: int| 0 <= t1 < t2 < ds1.len() implies (#[trigger] ds1[t1]).0@ != (
    #[trigger] ds1[t2]).0@ by {
        assert(ds1[t1].0 == ds0[t1].0);
        assert(ds1[t2].0 == ds0[t2].0);
    }
    assert forall|t: int| 0 <= t < ds1.len() implies (#[trigger] ds1[t]).1.spec_bytes().len() >= 4
        && ds1[t].1.spec_bytes().subrange(0, 4) == spec_magic() by {
        assert(ds1[t].1.spec_bytes() == ds0[t].1.spec_bytes());
    }
    assert forall|name: Seq<u8>|
        #![trigger seq_lookup(ix.sequences@, name)]
        match seq_lookup(ix.sequences@, name) {
            Some(seq) => {
                &&& offsets_follow_starts(&seq)
                &&& offsets_distinct(seq)
                &&& (match data_lookup(ds1, name) {
                    Some(h) => frames_ok(h.spec_bytes(), seq),
                    None => !has_any_feature(seq),
                })
            },
            None => true,
        } by {
        match seq_lookup(ix.sequences@, name) {
            Some(seq) => {
                match data_lookup(ds1, name) {
                    Some(h) => {},
                    None => {},
                }
            },
            None => {},
        }
    }
}



/// A bounds-passing candidate's frame bytes appear among the payloads.
proof fn lemma_payloads_contains(data: Seq<u8>, cands: Seq<(u64, u64)>, k: int)
    requires
        0 <= k < cands.len(),
        cands[k].0 + 8 + cands[k].1 <= data.len(),
    ensures
        exists|p: int| 0 <= p < spec_payloads(data, cands).len()
            && #[trigger] spec_payloads(data, cands)[p] == data.subrange(
            cands[k].0 as int + 8,
            cands[k].0 as int + 8 + cands[k].1 as int,
        ),
    decreases cands.len(),
{
    let pays = spec_payloads(data, cands);
    let left = spec_payloads(data, cands.drop_last());
    if k == cands.len() - 1 {
        assert(cands.last() == cands[k]);
        assert(pays[pays.len() - 1] == data.subrange(
            cands[k].0 as int + 8,
            cands[k].0 as int + 8 + cands[k].1 as int,
        ));
    } else {
        assert(cands.drop_last()[k] == cands[k]);
        lemma_payloads_contains(data, cands.drop_last(), k);
        let p = choose|p: int| 0 <= p < left.len() && #[trigger] left[p] == data.subrange(
            cands[k].0 as int + 8,
            cands[k].0 as int + 8 + cands[k].1 as int,
        );
        assert(pays[p] == left[p]);
    }
}

/// Every payload is the frame bytes of some bounds-passing candidate.
proof fn lemma_payloads_sound(data: Seq<u8>, cands: Seq<(u64, u64)>, p: int)
    requires
        0 <= p < spec_payloads(data, cands).len(),
    ensures
        exists|k: int|
            0 <= k < cands.len() && (#[trigger] cands[k]).0 + 8 + cands[k].1 <= data.len()
                && spec_payloads(data, cands)[p] == data.subrange(
                cands[k].0 as int + 8,
                cands[k].0 as int + 8 + cands[k].1 as int,
            ),
    decreases cands.len(),
{
    let pays = spec_payloads(data, cands);
    let left = spec_payloads(data, cands.drop_last());
    if p < left.len() {
        lemma_payloads_sound(data, cands.drop_last(), p);
        let k = choose|k: int|
            0 <= k < cands.drop_last().len() && (#[trigger] cands.drop_last()[k]).0 + 8
                + cands.drop_last()[k].1 <= data.len() && left[p] == data.subrange(
                cands.drop_last()[k].0 as int + 8,
                cands.drop_last()[k].0 as int + 8 + cands.drop_last()[k].1 as int,
            );
        assert(cands[k] == cands.drop_last()[k]);
        assert(pays[p] == left[p]);
    } else {
        assert(cands[cands.len() - 1] == cands.last());
    }
}

impl<T: Record> GenomicDataStore<T> {
    /// A store that holds its pack invariant is queryable: packing a
    /// store and querying it in one verified session needs no reopen.
    pub proof fn lemma_wf_implies_query_wf(&self)
        requires
            self.wf(),
        ensures
            self.query_wf(),
    {
    }

    /// Completeness through the store: a stored feature whose frame
    /// holds `enc` and whose range overlaps the query contributes `enc`
    /// to the query's payloads — so `get_overlapping` returns a record
    /// with that encoding, and the batch path returns those very bytes.
    /// The frame-content hypothesis is what `add_record` ensures for
    /// each insert: the new frame's payload is the record's encoding,
    /// and the feature carries the record's own coordinates, so across a
    /// pack session every inserted record satisfies it.
    pub proof fn lemma_store_completeness(
        &self,
        name: Seq<u8>,
        q0: u32,
        q1: u32,
        b: u32,
        i: int,
        enc: Seq<u8>,
    )
        requires
            self.wf(),
            q0 < q1,
            seq_lookup(self.spec_index().sequences@, name) matches Some(seq) && {
                &&& valid_pos(&seq, b, i)
                &&& stored_at(&seq, b, i).start < q1
                &&& stored_at(&seq, b, i).end > q0
                &&& (self.spec_data(name) matches Some(d) && frame_payload(
                    d,
                    stored_at(&seq, b, i),
                ) == enc)
            },
        ensures
            exists|p: int| 0 <= p < self.spec_query_payloads(name, q0, q1).len()
                && #[trigger] self.spec_query_payloads(name, q0, q1)[p] == enc,
    {
        let seq = seq_lookup(self.spec_index().sequences@, name).unwrap();
        let d = self.spec_data(name).unwrap();
        let f = stored_at(&seq, b, i);
        lemma_store_seq_wf(self.spec_index(), self.data@, name);
        crate::binning_index::lemma_query_completeness(
            &seq,
            &self.spec_index().bins,
            q0,
            q1,
            b,
            i,
        );
        let cands = seq.spec_find(&self.spec_index().bins, q0, q1);
        assert(cands.contains((f.index, f.length)));
        let k = choose|k: int| 0 <= k < cands.len() && cands[k] == (f.index, f.length);
        assert(frame_ok(d, f));
        lemma_payloads_contains(d, cands, k);
        let pays = self.spec_query_payloads(name, q0, q1);
        assert(pays == spec_payloads(d, cands));
        let p = choose|p: int| 0 <= p < spec_payloads(d, cands).len()
            && #[trigger] spec_payloads(d, cands)[p] == d.subrange(
            cands[k].0 as int + 8,
            cands[k].0 as int + 8 + cands[k].1 as int,
        );
        assert(pays[p] == enc);
    }

    /// Soundness through the store: every payload of a query is the
    /// frame content of a stored feature of that sequence whose range
    /// overlaps the query.
    pub proof fn lemma_store_soundness(&self, name: Seq<u8>, q0: u32, q1: u32, p: int)
        requires
            self.wf(),
            q0 < q1,
            0 <= p < self.spec_query_payloads(name, q0, q1).len(),
        ensures
            seq_lookup(self.spec_index().sequences@, name) matches Some(seq) && (exists|
                b: u32,
                i: int,
            |
                #![trigger valid_pos(&seq, b, i)]
                valid_pos(&seq, b, i) && stored_at(&seq, b, i).start < q1 && stored_at(
                    &seq,
                    b,
                    i,
                ).end > q0 && (self.spec_data(name) matches Some(d)
                    && self.spec_query_payloads(name, q0, q1)[p] == frame_payload(
                    d,
                    stored_at(&seq, b, i),
                ))),
    {
        let d = self.spec_data(name).unwrap();
        let pays = self.spec_query_payloads(name, q0, q1);
        match seq_lookup(self.spec_index().sequences@, name) {
            Some(seq) => {
                let cands = seq.spec_find(&self.spec_index().bins, q0, q1);
                lemma_payloads_sound(d, cands, p);
                let k = choose|k: int|
                    0 <= k < cands.len() && (#[trigger] cands[k]).0 + 8 + cands[k].1 <= d.len()
                        && pays[p] == d.subrange(
                        cands[k].0 as int + 8,
                        cands[k].0 as int + 8 + cands[k].1 as int,
                    );
                crate::binning_index::lemma_query_soundness(
                    &seq,
                    &self.spec_index().bins,
                    q0,
                    q1,
                    k,
                );
                let (b, i): (u32, int) = choose|b: u32, i: int|
                    #![trigger valid_pos(&seq, b, i)]
                    valid_pos(&seq, b, i) && stored_at(&seq, b, i).start < q1 && stored_at(
                        &seq,
                        b,
                        i,
                    ).end > q0 && cands[k] == (stored_at(&seq, b, i).index, stored_at(
                        &seq,
                        b,
                        i,
                    ).length);
                assert(pays[p] == frame_payload(d, stored_at(&seq, b, i)));
            },
            None => {
                assert(pays.len() == 0);
            },
        }
    }
}

/// Pull one sequence's invariant clauses out of the store invariant.
proof fn lemma_store_seq_wf(
    ix: BinningIndex,
    ds: Seq<(Vec<u8>, DataBuffer)>,
    name: Seq<u8>,
)
    requires
        store_wf(ix, ds),
        seq_lookup(ix.sequences@, name) matches Some(seq),
    ensures
        seq_lookup(ix.sequences@, name) matches Some(seq) && {
            &&& seq.wf(&ix.bins)
            &&& offsets_follow_starts(&seq)
            &&& (data_lookup(ds, name) matches Some(h) ==> frames_ok(h.spec_bytes(), seq))
        },
    decreases ix.sequences@.len(),
{
    let seq = seq_lookup(ix.sequences@, name).unwrap();
    assert(seq.wf(&ix.bins)) by {
        lemma_seq_wf_of(&ix, name);
    }
}

} // verus!
