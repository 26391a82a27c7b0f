//! The on-disk form of the index: a single binary structure holding the
//! schema tag, every per-sequence index, the (never meaningful on disk)
//! session sort state, and an optional caller-metadata blob appended after
//! the index proper.  All integers are little-endian.

use vstd::prelude::*;
use crate::binning::{BinningSchema, HierarchicalBins};
use crate::binning_index::{BinningIndex, Feature, LinearIndex, SequenceIndex};
use crate::HgIndexError;
use vstd::bytes::{spec_u32_to_le_bytes, spec_u64_to_le_bytes, lemma_auto_spec_u32_to_from_le_bytes, lemma_auto_spec_u64_to_from_le_bytes, u32_to_le_bytes, u64_to_le_bytes, u32_from_le_bytes, u64_from_le_bytes};
use vstd::slice::{slice_subrange, slice_to_vec};

verus! {

/// The tag bincode-style encodings give each schema variant.
pub open spec fn schema_tag(s: BinningSchema) -> u32 {
    match s {
        BinningSchema::Tabix => 0,
        BinningSchema::TabixNoLinear => 1,
        BinningSchema::Ucsc => 2,
        BinningSchema::UcscNoLinear => 3,
        BinningSchema::Dense => 4,
        BinningSchema::Sparse => 5,
    }
}

/// Serialized form of one feature entry: start, end, offset, length.
pub open spec fn ser_feature(f: Feature) -> Seq<u8> {
    spec_u32_to_le_bytes(f.start) + spec_u32_to_le_bytes(f.end) + spec_u64_to_le_bytes(f.index)
        + spec_u64_to_le_bytes(f.length)
}

/// Serialized form of a feature list body, in order.
pub open spec fn ser_feature_body(fs: Seq<Feature>) -> Seq<u8>
    decreases fs.len(),
{
    if fs.len() == 0 {
        Seq::empty()
    } else {
        ser_feature_body(fs.drop_last()) + ser_feature(fs.last())
    }
}

/// Serialized form of a feature list: a count then the entries.
pub open spec fn ser_features(fs: Seq<Feature>) -> Seq<u8> {
    spec_u64_to_le_bytes(fs.len() as u64) + ser_feature_body(fs)
}

/// Serialized form of the bin map's body.
pub open spec fn ser_bins_body(bins: Seq<(u32, Vec<Feature>)>) -> Seq<u8>
    decreases bins.len(),
{
    if bins.len() == 0 {
        Seq::empty()
    } else {
        ser_bins_body(bins.drop_last()) + spec_u32_to_le_bytes(bins.last().0) + ser_features(
            bins.last().1@,
        )
    }
}

/// Serialized form of the bin map: a count then `id, features` pairs.
pub open spec fn ser_bins(bins: Seq<(u32, Vec<Feature>)>) -> Seq<u8> {
    spec_u64_to_le_bytes(bins.len() as u64) + ser_bins_body(bins)
}

/// Serialized form of the linear array's cells.
pub open spec fn ser_u64_body(es: Seq<u64>) -> Seq<u8>
    decreases es.len(),
{
    if es.len() == 0 {
        Seq::empty()
    } else {
        ser_u64_body(es.drop_last()) + spec_u64_to_le_bytes(es.last())
    }
}

/// Serialized form of an optional linear index: a presence tag, then the
/// cells and the window shift.
pub open spec fn ser_linear(li: Option<LinearIndex>) -> Seq<u8> {
    match li {
        None => seq![0u8],
        Some(l) => seq![1u8] + spec_u64_to_le_bytes(l.spec_entries().len() as u64) + ser_u64_body(
            l.spec_entries(),
        ) + spec_u32_to_le_bytes(l.spec_shift()),
    }
}

/// Serialized form of one per-sequence index: bins then linear array.
pub open spec fn ser_seq_index(s: SequenceIndex) -> Seq<u8> {
    ser_bins(s.bins@) + ser_linear(s.linear_index)
}

/// Serialized form of the sequences map's body.
pub open spec fn ser_sequences_body(seqs: Seq<(Vec<u8>, SequenceIndex)>) -> Seq<u8>
    decreases seqs.len(),
{
    if seqs.len() == 0 {
        Seq::empty()
    } else {
        ser_sequences_body(seqs.drop_last()) + spec_u64_to_le_bytes(
            seqs.last().0@.len() as u64,
        ) + seqs.last().0@ + ser_seq_index(seqs.last().1)
    }
}

/// Serialized form of the sequences map: a count, then
/// `name length, name bytes, sequence index` triples.
pub open spec fn ser_sequences(seqs: Seq<(Vec<u8>, SequenceIndex)>) -> Seq<u8> {
    spec_u64_to_le_bytes(seqs.len() as u64) + ser_sequences_body(seqs)
}

/// Serialized form of the whole index.  The session sort state is
/// transient and always written as absent.
pub open spec fn ser_index(ix: BinningIndex) -> Seq<u8> {
    spec_u32_to_le_bytes(schema_tag(ix.bins.schema)) + ser_sequences(ix.sequences@) + seq![0u8]
        + seq![0u8]
}

/// Serialized form of the optional metadata blob appended after the
/// index proper.
pub open spec fn ser_metadata(m: Option<Seq<u8>>) -> Seq<u8> {
    match m {
        None => seq![0u8],
        Some(b) => seq![1u8] + spec_u64_to_le_bytes(b.len() as u64) + b,
    }
}

/// The full index file: the index, then the metadata blob.
pub open spec fn ser_index_file(ix: BinningIndex, m: Option<Seq<u8>>) -> Seq<u8> {
    ser_index(ix) + ser_metadata(m)
}

/// Adjacent subranges concatenate to the enclosing subrange.
proof fn lemma_concat_subrange(s: Seq<u8>, a: int, b: int, c: int)
    requires
        0 <= a <= b <= c <= s.len(),
    ensures
        s.subrange(a, b) + s.subrange(b, c) == s.subrange(a, c),
{
    assert(s.subrange(a, b) + s.subrange(b, c) =~= s.subrange(a, c));
}

/// Append a `u32` little-endian.
fn push_u32(out: &mut Vec<u8>, x: u32)
    ensures
        final(out)@ == old(out)@ + spec_u32_to_le_bytes(x),
{
    let mut b = u32_to_le_bytes(x);
    out.append(&mut b);
}

/// Append a `u64` little-endian.
fn push_u64(out: &mut Vec<u8>, x: u64)
    ensures
        final(out)@ == old(out)@ + spec_u64_to_le_bytes(x),
{
    let mut b = u64_to_le_bytes(x);
    out.append(&mut b);
}

/// Serialize the index and an optional metadata blob into the index
/// file's byte form.
pub fn serialize_index(ix: &BinningIndex, metadata: &Option<Vec<u8>>) -> (r: Vec<u8>)
    ensures
        r@ == ser_index_file(*ix, match metadata {
            Some(m) => Some(m@),
            None => None,
        }),
{
    let mut out: Vec<u8> = Vec::new();
    let tag: u32 = match ix.bins.schema {
        BinningSchema::Tabix => 0,
        BinningSchema::TabixNoLinear => 1,
        BinningSchema::Ucsc => 2,
        BinningSchema::UcscNoLinear => 3,
        BinningSchema::Dense => 4,
        BinningSchema::Sparse => 5,
    };
    push_u32(&mut out, tag);
    let nseq = ix.sequences.len();
    push_u64(&mut out, nseq as u64);
    let ghost header = out@;
    let mut t: usize = 0;
    while t < nseq
        invariant
            t <= nseq,
            nseq == ix.sequences@.len(),
            out@ == header + ser_sequences_body(ix.sequences@.take(t as int)),
        decreases nseq - t,
    {
        let ghost before = out@;
        let name_len = ix.sequences[t].0.len();
        push_u64(&mut out, name_len as u64);
        out.extend_from_slice(ix.sequences[t].0.as_slice());
        serialize_seq_index(&mut out, &ix.sequences[t].1);
        proof {
            let pfx = ix.sequences@.take(t as int + 1);
            assert(pfx.drop_last() =~= ix.sequences@.take(t as int));
            assert(pfx.last() == ix.sequences@[t as int]);
            assert(out@ =~= header + ser_sequences_body(pfx));
        }
        t = t + 1;
    }
    proof {
        assert(ix.sequences@.take(nseq as int) =~= ix.sequences@);
    }
    // Transient sort state: always absent on disk.
    out.push(0u8);
    out.push(0u8);
    match metadata {
        Some(m) => {
            out.push(1u8);
            push_u64(&mut out, m.len() as u64);
            out.extend_from_slice(m.as_slice());
        },
        None => {
            out.push(0u8);
        },
    }
    proof {
        assert(out@ =~= ser_index_file(*ix, match metadata {
            Some(m) => Some(m@),
            None => None,
        }));
    }
    out
}

/// Serialize one per-sequence index.
fn serialize_seq_index(out: &mut Vec<u8>, s: &SequenceIndex)
    ensures
        final(out)@ == old(out)@ + ser_seq_index(*s),
{
    let nbins = s.bins.len();
    push_u64(out, nbins as u64);
    let ghost header = out@;
    let mut t: usize = 0;
    while t < nbins
        invariant
            t <= nbins,
            nbins == s.bins@.len(),
            out@ == header + ser_bins_body(s.bins@.take(t as int)),
        decreases nbins - t,
    {
        push_u32(out, s.bins[t].0);
        serialize_features(out, &s.bins[t].1);
        proof {
            let pfx = s.bins@.take(t as int + 1);
            assert(pfx.drop_last() =~= s.bins@.take(t as int));
            assert(pfx.last() == s.bins@[t as int]);
            assert(out@ =~= header + ser_bins_body(pfx));
        }
        t = t + 1;
    }
    proof {
        assert(s.bins@.take(nbins as int) =~= s.bins@);
    }
    match &s.linear_index {
        None => {
            out.push(0u8);
        },
        Some(li) => {
            out.push(1u8);
            let entries = li.entries_vec();
            let ne = entries.len();
            push_u64(out, ne as u64);
            let ghost lheader = out@;
            let mut w: usize = 0;
            while w < ne
                invariant
                    w <= ne,
                    ne == entries@.len(),
                    out@ == lheader + ser_u64_body(entries@.take(w as int)),
                decreases ne - w,
            {
                push_u64(out, entries[w]);
                proof {
                    let pfx = entries@.take(w as int + 1);
                    assert(pfx.drop_last() =~= entries@.take(w as int));
                    assert(out@ =~= lheader + ser_u64_body(pfx));
                }
                w = w + 1;
            }
            proof {
                assert(entries@.take(ne as int) =~= entries@);
            }
            push_u32(out, li.shift_value());
        },
    }
    proof {
        assert(final(out)@ =~= old(out)@ + ser_seq_index(*s));
    }
}

/// Serialize a feature list.
fn serialize_features(out: &mut Vec<u8>, fs: &Vec<Feature>)
    ensures
        final(out)@ == old(out)@ + ser_features(fs@),
{
    let n = fs.len();
    push_u64(out, n as u64);
    let ghost header = out@;
    let mut t: usize = 0;
    while t < n
        invariant
            t <= n,
            n == fs@.len(),
            out@ == header + ser_feature_body(fs@.take(t as int)),
        decreases n - t,
    {
        let f = fs[t];
        push_u32(out, f.start);
        push_u32(out, f.end);
        push_u64(out, f.index);
        push_u64(out, f.length);
        proof {
            let pfx = fs@.take(t as int + 1);
            assert(pfx.drop_last() =~= fs@.take(t as int));
            assert(out@ =~= header + ser_feature_body(pfx));
        }
        t = t + 1;
    }
    proof {
        assert(fs@.take(n as int) =~= fs@);
        assert(final(out)@ =~= old(out)@ + ser_features(fs@));
    }
}



/// Read a `u32` at `pos`; fails only when fewer than four bytes remain.
fn parse_u32(bytes: &[u8], pos: usize) -> (r: Result<(u32, usize), HgIndexError>)
    ensures
        match r {
            Ok((v, p)) => {
                &&& pos + 4 <= bytes@.len()
                &&& p == pos + 4
                &&& spec_u32_to_le_bytes(v) == bytes@.subrange(pos as int, pos as int + 4)
            },
            Err(e) => pos + 4 > bytes@.len() && e == HgIndexError::DeserializationError,
        },
{
    if bytes.len() < 4 || pos > bytes.len() - 4 {
        return Err(HgIndexError::DeserializationError);
    }
    let v = u32_from_le_bytes(slice_subrange(bytes, pos, pos + 4));
    proof {
        lemma_auto_spec_u32_to_from_le_bytes();
    }
    Ok((v, pos + 4))
}

/// Read a `u64` at `pos`; fails only when fewer than eight bytes remain.
fn parse_u64(bytes: &[u8], pos: usize) -> (r: Result<(u64, usize), HgIndexError>)
    ensures
        match r {
            Ok((v, p)) => {
                &&& pos + 8 <= bytes@.len()
                &&& p == pos + 8
                &&& spec_u64_to_le_bytes(v) == bytes@.subrange(pos as int, pos as int + 8)
            },
            Err(e) => pos + 8 > bytes@.len() && e == HgIndexError::DeserializationError,
        },
{
    if bytes.len() < 8 || pos > bytes.len() - 8 {
        return Err(HgIndexError::DeserializationError);
    }
    let v = u64_from_le_bytes(slice_subrange(bytes, pos, pos + 8));
    proof {
        lemma_auto_spec_u64_to_from_le_bytes();
    }
    Ok((v, pos + 8))
}

/// Read one byte at `pos`.
fn parse_u8(bytes: &[u8], pos: usize) -> (r: Result<(u8, usize), HgIndexError>)
    ensures
        match r {
            Ok((v, p)) => {
                &&& pos + 1 <= bytes@.len()
                &&& p == pos + 1
                &&& bytes@[pos as int] == v
            },
            Err(e) => pos + 1 > bytes@.len() && e == HgIndexError::DeserializationError,
        },
{
    if pos >= bytes.len() {
        return Err(HgIndexError::DeserializationError);
    }
    Ok((bytes[pos], pos + 1))
}

/// Parse a feature list written by `ser_features`.
fn parse_features(bytes: &[u8], pos: usize) -> (r: Result<(Vec<Feature>, usize), HgIndexError>)
    requires
        pos <= bytes@.len(),
    ensures
        match r {
            Ok((fs, p)) => {
                &&& pos <= p <= bytes@.len()
                &&& ser_features(fs@) == bytes@.subrange(pos as int, p as int)
            },
            Err(e) => e == HgIndexError::DeserializationError,
        },
        (exists|fs: Seq<Feature>, rest: Seq<u8>|
            bytes@.skip(pos as int) == #[trigger] (ser_features(fs) + rest)) ==> r.is_ok(),
{
    proof {
        lemma_auto_spec_u64_to_from_le_bytes();
    }
    let ghost hyp = exists|fs: Seq<Feature>, rest: Seq<u8>|
        bytes@.skip(pos as int) == #[trigger] (ser_features(fs) + rest);
    let ghost gpair = choose|fs: Seq<Feature>, rest: Seq<u8>|
        bytes@.skip(pos as int) == #[trigger] (ser_features(fs) + rest);
    proof {
        if hyp {
            let (gfs, grest) = gpair;
            lemma_ser_feature_body_len(gfs);
            assert(bytes@.skip(pos as int).len() == 8 + 24 * gfs.len() + grest.len());
            assert(bytes@.subrange(pos as int, pos as int + 8) =~= spec_u64_to_le_bytes(
                gfs.len() as u64,
            ));
        }
    }
    let (count, mut cur) = match parse_u64(bytes, pos) {
        Ok(v) => v,
        Err(e) => {
            proof {
                if hyp {
                    assert(false);
                }
            }
            return Err(e);
        },
    };
    // Each entry takes 24 bytes; an impossible count is malformed.
    if count > ((bytes.len() - cur) / 24) as u64 {
        proof {
            if hyp {
                let (gfs, grest) = gpair;
                assert(spec_u64_to_le_bytes(count) == spec_u64_to_le_bytes(gfs.len() as u64));
                lemma_u64_prefix_inj(count, gfs.len() as u64, Seq::empty(), Seq::empty());
                assert(24 * gfs.len() <= bytes@.len() - cur);
                assert(false);
            }
        }
        return Err(HgIndexError::DeserializationError);
    }
    let n = count as usize;
    let mut fs: Vec<Feature> = Vec::new();
    let ghost body_start = cur as int;
    let mut i: usize = 0;
    while i < n
        invariant
            i <= n,
            fs@.len() == i,
            0 <= body_start <= cur as int <= bytes@.len(),
            ser_feature_body(fs@) == bytes@.subrange(body_start, cur as int),
            cur as int == body_start + 24 * i,
            n as int <= (bytes@.len() - body_start) / 24 + 1,
            cur + (n - i) * 24 <= bytes@.len() || n == i,
        decreases n - i,
    {
        let ghost entry_start = cur as int;
        let (start, c1) = match parse_u32(bytes, cur) {
            Ok(v) => v,
            Err(e) => {
                return Err(e);
            },
        };
        let (end, c2) = match parse_u32(bytes, c1) {
            Ok(v) => v,
            Err(e) => {
                return Err(e);
            },
        };
        let (index, c3) = match parse_u64(bytes, c2) {
            Ok(v) => v,
            Err(e) => {
                return Err(e);
            },
        };
        let (length, c4) = match parse_u64(bytes, c3) {
            Ok(v) => v,
            Err(e) => {
                return Err(e);
            },
        };
        let f = Feature { start, end, index, length };
        let ghost fs_before = fs@;
        fs.push(f);
        proof {
            assert(fs@.drop_last() =~= fs_before);
            assert(ser_feature(f) =~= bytes@.subrange(entry_start, c4 as int));
            lemma_concat_subrange(bytes@, body_start, entry_start, c4 as int);
            assert(ser_feature_body(fs@) =~= bytes@.subrange(body_start, c4 as int));
            assert((i + 1 < n) ==> c4 + (n - i - 1) * 24 <= bytes@.len()) by (nonlinear_arith)
                requires
                    cur + (n - i) * 24 <= bytes@.len() || n == i,
                    i < n,
                    c4 == cur + 24,
            ;
            assert(c4 as int == body_start + 24 * (i + 1)) by (nonlinear_arith)
                requires
                    cur as int == body_start + 24 * i,
                    c4 == cur + 24,
            ;
        }
        cur = c4;
        i = i + 1;
    }
    proof {
        assert(ser_features(fs@) =~= bytes@.subrange(pos as int, cur as int));
    }
    Ok((fs, cur))
}

/// Parse a bin map written by `ser_bins`.
fn parse_bins(bytes: &[u8], pos: usize) -> (r: Result<(Vec<(u32, Vec<Feature>)>, usize), HgIndexError>)
    requires
        pos <= bytes@.len(),
    ensures
        match r {
            Ok((bins, p)) => {
                &&& pos <= p <= bytes@.len()
                &&& ser_bins(bins@) == bytes@.subrange(pos as int, p as int)
            },
            Err(e) => e == HgIndexError::DeserializationError,
        },
        (exists|gb: Seq<(u32, Vec<Feature>)>, rest: Seq<u8>|
            bytes@.skip(pos as int) == #[trigger] (ser_bins(gb) + rest)) ==> r.is_ok(),
{
    proof {
        lemma_auto_spec_u32_to_from_le_bytes();
        lemma_auto_spec_u64_to_from_le_bytes();
    }
    let ghost hyp = exists|gb: Seq<(u32, Vec<Feature>)>, rest: Seq<u8>|
        bytes@.skip(pos as int) == #[trigger] (ser_bins(gb) + rest);
    let ghost g = choose|gb: Seq<(u32, Vec<Feature>)>, rest: Seq<u8>|
        bytes@.skip(pos as int) == #[trigger] (ser_bins(gb) + rest);
    let blen = bytes.len();
    proof {
        if hyp {
            let (gb, grest) = g;
            lemma_ser_bins_body_min_len(gb);
            assert(bytes@.skip(pos as int) =~= spec_u64_to_le_bytes(gb.len() as u64)
                + (ser_bins_body(gb) + grest));
            assert forall|j: int| 0 <= j < 8 implies #[trigger] bytes@.subrange(
                pos as int,
                pos as int + 8,
            )[j] == spec_u64_to_le_bytes(gb.len() as u64)[j] by {
                assert(bytes@.subrange(pos as int, pos as int + 8)[j] == bytes@[pos as int + j]);
                assert(bytes@[pos as int + j] == bytes@.skip(pos as int)[j]);
            }
            assert(bytes@.subrange(pos as int, pos as int + 8) =~= spec_u64_to_le_bytes(
                gb.len() as u64,
            ));
        }
    }
    let (count, start_cur) = match parse_u64(bytes, pos) {
        Ok(v) => v,
        Err(e) => {
            proof {
                if hyp {
                    assert(false);
                }
            }
            return Err(e);
        },
    };
    let mut cur = start_cur;
    proof {
        if hyp {
            let (gb, grest) = g;
            lemma_u64_prefix_inj(count, gb.len() as u64, Seq::empty(), Seq::empty());
            assert(12 * gb.len() <= blen as int);
            assert(gb.len() < 0x1_0000_0000_0000_0000);
            assert(count == gb.len());
        }
    }
    // Each entry takes at least 12 bytes.
    if count > ((bytes.len() - cur) / 12) as u64 {
        proof {
            if hyp {
                let (gb, grest) = g;
                assert(12 * gb.len() <= bytes@.len() - cur);
                assert(false);
            }
        }
        return Err(HgIndexError::DeserializationError);
    }
    let n = count as usize;
    proof {
        if hyp {
            let (gb, grest) = g;
            assert(gb.skip(0) =~= gb);
            assert forall|j: int| 0 <= j < bytes@.len() - cur implies #[trigger] bytes@.skip(
                cur as int,
            )[j] == (ser_bins_body(gb) + grest)[j] by {
                assert(bytes@.skip(cur as int)[j] == bytes@[cur as int + j]);
                assert(bytes@[cur as int + j] == bytes@.skip(pos as int)[8 + j]);
            }
            assert(bytes@.skip(cur as int) =~= ser_bins_body(gb) + grest);
            assert(bytes@.skip(cur as int) == ser_bins_body(gb.skip(0)) + grest);
        }
    }
    let mut bins: Vec<(u32, Vec<Feature>)> = Vec::new();
    let ghost body_start = cur as int;
    let mut i: usize = 0;
    while i < n
        invariant
            i <= n,
            bins@.len() == i,
            0 <= body_start <= cur as int <= bytes@.len(),
            ser_bins_body(bins@) == bytes@.subrange(body_start, cur as int),
            hyp == (exists|gb: Seq<(u32, Vec<Feature>)>, rest: Seq<u8>|
                bytes@.skip(pos as int) == #[trigger] (ser_bins(gb) + rest)),
            hyp ==> g.0.len() == n && bytes@.skip(cur as int) == ser_bins_body(
                g.0.skip(i as int),
            ) + g.1,
            blen == bytes@.len(),
        decreases n - i,
    {
        let ghost entry_start = cur as int;
        proof {
            lemma_auto_spec_u32_to_from_le_bytes();
            lemma_auto_spec_u64_to_from_le_bytes();
            if hyp {
                let (gb, grest) = g;
                let tail = gb.skip(i as int);
                assert(tail.len() > 0);
                assert(tail[0] == gb[i as int]);
                assert(tail.drop_first() =~= gb.skip(i as int + 1));
                lemma_bins_body_front(tail);
                lemma_ser_bins_body_min_len(tail);
                assert(ser_bins_body(tail) == spec_u32_to_le_bytes(gb[i as int].0)
                    + ser_features(gb[i as int].1@) + ser_bins_body(gb.skip(i as int + 1)));
                assert(ser_bins_body(tail) + grest =~= spec_u32_to_le_bytes(gb[i as int].0) + (
                ser_features(gb[i as int].1@) + (ser_bins_body(gb.skip(i as int + 1)) + grest)));
                assert(bytes@.skip(cur as int) == spec_u32_to_le_bytes(gb[i as int].0) + (
                ser_features(gb[i as int].1@) + (ser_bins_body(gb.skip(i as int + 1)) + grest)));
                assert forall|j: int| 0 <= j < 4 implies #[trigger] bytes@.subrange(
                    cur as int,
                    cur as int + 4,
                )[j] == spec_u32_to_le_bytes(gb[i as int].0)[j] by {
                    assert(bytes@.subrange(cur as int, cur as int + 4)[j] == bytes@[cur as int
                        + j]);
                    assert(bytes@[cur as int + j] == bytes@.skip(cur as int)[j]);
                    assert(bytes@.skip(cur as int)[j] == spec_u32_to_le_bytes(gb[i as int].0)[j]);
                }
                assert(bytes@.subrange(cur as int, cur as int + 4) =~= spec_u32_to_le_bytes(
                    gb[i as int].0,
                ));
            }
        }
        let (id, c1) = match parse_u32(bytes, cur) {
            Ok(v) => v,
            Err(e) => {
                proof {
                    if hyp {
                        assert(false);
                    }
                }
                return Err(e);
            },
        };
        proof {
            if hyp {
                let (gb, grest) = g;
                let ftail = ser_features(gb[i as int].1@) + (ser_bins_body(
                    gb.skip(i as int + 1),
                ) + grest);
                assert forall|j: int| 0 <= j < bytes@.len() - c1 implies #[trigger] bytes@.skip(
                    c1 as int,
                )[j] == ftail[j] by {
                    assert(bytes@.skip(c1 as int)[j] == bytes@[c1 as int + j]);
                    assert(bytes@[c1 as int + j] == bytes@.skip(cur as int)[4 + j]);
                }
                assert(bytes@.skip(c1 as int) =~= ftail);
                assert(bytes@.skip(c1 as int) == ser_features(gb[i as int].1@) + (ser_bins_body(
                    gb.skip(i as int + 1),
                ) + grest));
            }
        }
        let (feats, c2) = match parse_features(bytes, c1) {
            Ok(v) => v,
            Err(e) => {
                proof {
                    if hyp {
                        assert(false);
                    }
                }
                return Err(e);
            },
        };
        proof {
            if hyp {
                let (gb, grest) = g;
                // The parsed list consumes exactly the element's bytes:
                // equal counts force equal lengths.
                lemma_ser_feature_body_len(feats@);
                lemma_ser_feature_body_len(gb[i as int].1@);
                assert forall|j: int| 0 <= j < 8 implies #[trigger] bytes@.subrange(
                    c1 as int,
                    c1 as int + 8,
                )[j] == spec_u64_to_le_bytes(gb[i as int].1@.len() as u64)[j] by {
                    assert(bytes@.subrange(c1 as int, c1 as int + 8)[j] == bytes@[c1 as int + j]);
                    assert(bytes@[c1 as int + j] == bytes@.skip(c1 as int)[j]);
                }
                assert(bytes@.subrange(c1 as int, c1 as int + 8) =~= spec_u64_to_le_bytes(
                    gb[i as int].1@.len() as u64,
                ));
                // The parsed count prefix is the element's count prefix.
                assert(ser_features(feats@).len() == c2 - c1);
                assert(c2 - c1 == 8 + 24 * feats@.len());
                assert forall|j: int| 0 <= j < 8 implies #[trigger] bytes@.subrange(
                    c1 as int,
                    c1 as int + 8,
                )[j] == spec_u64_to_le_bytes(feats@.len() as u64)[j] by {
                    assert(bytes@.subrange(c1 as int, c1 as int + 8)[j] == bytes@[c1 as int + j]);
                    assert(bytes@.subrange(c1 as int, c2 as int)[j] == bytes@[c1 as int + j]);
                    assert(ser_features(feats@)[j] == spec_u64_to_le_bytes(
                        feats@.len() as u64,
                    )[j]);
                }
                assert(spec_u64_to_le_bytes(feats@.len() as u64) =~= bytes@.subrange(
                    c1 as int,
                    c1 as int + 8,
                ));
                assert(spec_u64_to_le_bytes(feats@.len() as u64) == spec_u64_to_le_bytes(
                    gb[i as int].1@.len() as u64,
                ));
                assert(feats@.len() as u64 == gb[i as int].1@.len() as u64) by {
                    assert(spec_u64_from_le_wrap(spec_u64_to_le_bytes(feats@.len() as u64))
                        == feats@.len() as u64);
                    assert(spec_u64_from_le_wrap(spec_u64_to_le_bytes(
                        gb[i as int].1@.len() as u64,
                    )) == gb[i as int].1@.len() as u64);
                }
                assert(24 * feats@.len() <= blen as int);
                assert(8 + 24 * gb[i as int].1@.len() <= blen - c1);
                assert(feats@.len() == gb[i as int].1@.len());
                assert(c2 as int == c1 + 8 + 24 * gb[i as int].1@.len());
                // The rest of the stream is the remaining elements.
                assert forall|j: int| 0 <= j < bytes@.len() - c2 implies #[trigger] bytes@.skip(
                    c2 as int,
                )[j] == (ser_bins_body(gb.skip(i as int + 1)) + grest)[j] by {
                    assert(bytes@.skip(c2 as int)[j] == bytes@[c2 as int + j]);
                    assert(bytes@[c2 as int + j] == bytes@.skip(c1 as int)[c2 - c1 + j]);
                    lemma_ser_feature_body_len(gb[i as int].1@);
                }
                assert(bytes@.skip(c2 as int) =~= ser_bins_body(gb.skip(i as int + 1)) + grest);
            }
        }
        let ghost bins_before = bins@;
        bins.push((id, feats));
        proof {
            assert(bins@.drop_last() =~= bins_before);
            lemma_concat_subrange(bytes@, entry_start, c1 as int, c2 as int);
            lemma_concat_subrange(bytes@, body_start, entry_start, c2 as int);
            assert(ser_bins_body(bins@) =~= bytes@.subrange(body_start, c2 as int));
        }
        cur = c2;
        i = i + 1;
    }
    proof {
        assert(ser_bins(bins@) =~= bytes@.subrange(pos as int, cur as int));
    }
    Ok((bins, cur))
}

/// Parse an optional linear index written by `ser_linear`.
fn parse_linear(bytes: &[u8], pos: usize) -> (r: Result<(Option<LinearIndex>, usize), HgIndexError>)
    requires
        pos <= bytes@.len(),
    ensures
        match r {
            Ok((li, p)) => {
                &&& pos <= p <= bytes@.len()
                &&& ser_linear(li) == bytes@.subrange(pos as int, p as int)
                &&& (li matches Some(l) ==> l.wf())
            },
            Err(e) => e == HgIndexError::DeserializationError,
        },
        (exists|ol: Option<LinearIndex>, rest: Seq<u8>|
            (ol matches Some(l) ==> l.wf()) && bytes@.skip(pos as int) == #[trigger] (ser_linear(
                ol,
            ) + rest)) ==> r.is_ok(),
{
    proof {
        lemma_auto_spec_u32_to_from_le_bytes();
        lemma_auto_spec_u64_to_from_le_bytes();
    }
    let ghost hyp = exists|ol: Option<LinearIndex>, rest: Seq<u8>|
        (ol matches Some(l) ==> l.wf()) && bytes@.skip(pos as int) == #[trigger] (ser_linear(ol)
            + rest);
    let ghost g = choose|ol: Option<LinearIndex>, rest: Seq<u8>|
        (ol matches Some(l) ==> l.wf()) && bytes@.skip(pos as int) == #[trigger] (ser_linear(ol)
            + rest);
    proof {
        if hyp {
            match g.0 {
                None => {
                    assert(bytes@.skip(pos as int) =~= seq![0u8] + g.1);
                    assert(bytes@[pos as int] == bytes@.skip(pos as int)[0]);
                    assert(bytes@[pos as int] == 0u8);
                },
                Some(l) => {
                    lemma_ser_u64_body_len(l.spec_entries());
                    assert(bytes@.skip(pos as int) =~= seq![1u8] + (spec_u64_to_le_bytes(
                        l.spec_entries().len() as u64,
                    ) + (ser_u64_body(l.spec_entries()) + (spec_u32_to_le_bytes(l.spec_shift())
                        + g.1))));
                    assert(bytes@[pos as int] == bytes@.skip(pos as int)[0]);
                    assert(bytes@[pos as int] == 1u8);
                    assert forall|j: int| 0 <= j < 8 implies #[trigger] bytes@.subrange(
                        pos as int + 1,
                        pos as int + 9,
                    )[j] == spec_u64_to_le_bytes(l.spec_entries().len() as u64)[j] by {
                        assert(bytes@.subrange(pos as int + 1, pos as int + 9)[j] == bytes@[
                            pos as int + 1 + j]);
                        assert(bytes@[pos as int + 1 + j] == bytes@.skip(pos as int)[1 + j]);
                    }
                    assert(bytes@.subrange(pos as int + 1, pos as int + 9)
                        =~= spec_u64_to_le_bytes(l.spec_entries().len() as u64));
                    assert(bytes@.skip(pos as int).len() == 13 + 8 * l.spec_entries().len()
                        + g.1.len());
                },
            }
        }
    }
    let blen = bytes.len();
    let (tag, c0) = match parse_u8(bytes, pos) {
        Ok(v) => v,
        Err(e) => {
            proof {
                if hyp {
                    assert(false);
                }
            }
            return Err(e);
        },
    };
    if tag == 0 {
        proof {
            assert(ser_linear(None::<LinearIndex>) =~= bytes@.subrange(pos as int, c0 as int));
        }
        return Ok((None, c0));
    }
    if tag != 1 {
        proof {
            if hyp {
                assert(false);
            }
        }
        return Err(HgIndexError::DeserializationError);
    }
    let (count, start_cur) = match parse_u64(bytes, c0) {
        Ok(v) => v,
        Err(e) => {
            proof {
                if hyp {
                    assert(false);
                }
            }
            return Err(e);
        },
    };
    let mut cur = start_cur;
    proof {
        if hyp {
            match g.0 {
                None => {
                    assert(false);
                },
                Some(l) => {
                    lemma_u64_prefix_inj(
                        count,
                        l.spec_entries().len() as u64,
                        Seq::empty(),
                        Seq::empty(),
                    );
                    // The serialized cells fit in the slice, so the count
                    // cannot have wrapped.
                    assert(8 * l.spec_entries().len() <= blen as int);
                    assert(l.spec_entries().len() < 0x1_0000_0000_0000_0000);
                    assert(count == l.spec_entries().len());
                    assert(8 * l.spec_entries().len() + 4 <= bytes@.len() - cur);
                },
            }
        }
    }
    if count > ((bytes.len() - cur) / 8) as u64 {
        proof {
            if hyp {
                assert(false);
            }
        }
        return Err(HgIndexError::DeserializationError);
    }
    let n = count as usize;
    let mut entries: Vec<u64> = Vec::new();
    let ghost body_start = cur as int;
    let mut w: usize = 0;
    while w < n
        invariant
            w <= n,
            entries@.len() == w,
            0 <= body_start <= cur as int <= bytes@.len(),
            ser_u64_body(entries@) == bytes@.subrange(body_start, cur as int),
            cur as int == body_start + 8 * w,
            body_start + 8 * n <= bytes@.len(),
        decreases n - w,
    {
        let (v, c1) = match parse_u64(bytes, cur) {
            Ok(v) => v,
            Err(e) => {
                proof {
                    assert(false);
                }
                return Err(e);
            },
        };
        let ghost entries_before = entries@;
        entries.push(v);
        proof {
            assert(entries@.drop_last() =~= entries_before);
            lemma_concat_subrange(bytes@, body_start, cur as int, c1 as int);
            assert(ser_u64_body(entries@) =~= bytes@.subrange(body_start, c1 as int));
        }
        cur = c1;
        w = w + 1;
    }
    proof {
        if hyp {
            match g.0 {
                None => {
                    assert(false);
                },
                Some(l) => {
                    lemma_ser_u64_body_len(l.spec_entries());
                    assert(cur as int == pos + 9 + 8 * l.spec_entries().len());
                    assert(cur + 4 <= bytes@.len());
                    assert forall|j: int| 0 <= j < 4 implies #[trigger] bytes@.subrange(
                        cur as int,
                        cur as int + 4,
                    )[j] == spec_u32_to_le_bytes(l.spec_shift())[j] by {
                        assert(bytes@.subrange(cur as int, cur as int + 4)[j] == bytes@[
                            cur as int + j]);
                        assert(bytes@[cur as int + j] == bytes@.skip(pos as int)[cur as int + j
                            - pos]);
                        assert(bytes@.skip(pos as int) =~= seq![1u8] + (spec_u64_to_le_bytes(
                            l.spec_entries().len() as u64,
                        ) + (ser_u64_body(l.spec_entries()) + (spec_u32_to_le_bytes(
                            l.spec_shift(),
                        ) + g.1))));
                        assert((spec_u32_to_le_bytes(l.spec_shift()) + g.1)[j]
                            == spec_u32_to_le_bytes(l.spec_shift())[j]);
                    }
                    assert(bytes@.subrange(cur as int, cur as int + 4) =~= spec_u32_to_le_bytes(
                        l.spec_shift(),
                    ));
                },
            }
        }
    }
    let (shift, c2) = match parse_u32(bytes, cur) {
        Ok(v) => v,
        Err(e) => {
            proof {
                if hyp {
                    assert(false);
                }
            }
            return Err(e);
        },
    };
    if shift < 1 || shift >= 32 {
        proof {
            if hyp {
                match g.0 {
                    None => {
                        assert(false);
                    },
                    Some(l) => {
                        lemma_u32_prefix_inj(shift, l.spec_shift(), Seq::empty(), Seq::empty());
                        assert(false);
                    },
                }
            }
        }
        return Err(HgIndexError::DeserializationError);
    }
    let li = LinearIndex::from_parts(entries, shift);
    proof {
        assert(ser_linear(Some(li)) =~= bytes@.subrange(pos as int, c2 as int));
    }
    Ok((Some(li), c2))
}

/// Parse one per-sequence index written by `ser_seq_index`.
fn parse_seq_index(bytes: &[u8], pos: usize) -> (r: Result<(SequenceIndex, usize), HgIndexError>)
    requires
        pos <= bytes@.len(),
    ensures
        match r {
            Ok((s, p)) => {
                &&& pos <= p <= bytes@.len()
                &&& ser_seq_index(s) == bytes@.subrange(pos as int, p as int)
                &&& s.linear_wf()
                &&& s.spec_last_start().is_none()
            },
            Err(e) => e == HgIndexError::DeserializationError,
        },
        (exists|gs: SequenceIndex, rest: Seq<u8>|
            (gs.linear_index matches Some(l) ==> l.wf()) && bytes@.skip(pos as int)
                == #[trigger] (ser_seq_index(gs) + rest)) ==> (r matches Ok((s2, p)) && (forall|
            gs: SequenceIndex,
            rest: Seq<u8>,
        |
            (gs.linear_index matches Some(l) ==> l.wf()) && bytes@.skip(pos as int)
                == #[trigger] (ser_seq_index(gs) + rest) ==> p == pos + ser_seq_index(gs).len())),
{
    proof {
        lemma_auto_spec_u32_to_from_le_bytes();
        lemma_auto_spec_u64_to_from_le_bytes();
    }
    let ghost hyp = exists|gs: SequenceIndex, rest: Seq<u8>|
        (gs.linear_index matches Some(l) ==> l.wf()) && bytes@.skip(pos as int)
            == #[trigger] (ser_seq_index(gs) + rest);
    let ghost g = choose|gs: SequenceIndex, rest: Seq<u8>|
        (gs.linear_index matches Some(l) ==> l.wf()) && bytes@.skip(pos as int)
            == #[trigger] (ser_seq_index(gs) + rest);
    let blen = bytes.len();
    proof {
        if hyp {
            let (gs, grest) = g;
            assert(bytes@.skip(pos as int) =~= ser_bins(gs.bins@) + (ser_linear(gs.linear_index)
                + grest));
        }
    }
    let (bins, c1) = match parse_bins(bytes, pos) {
        Ok(v) => v,
        Err(e) => {
            proof {
                if hyp {
                    assert(false);
                }
            }
            return Err(e);
        },
    };
    proof {
        if hyp {
            let (gs, grest) = g;
            // The parsed bin map consumes exactly the element's bin map.
            lemma_align_bins(bytes@, pos as int, c1 as int, bins@, gs.bins@, ser_linear(
                gs.linear_index,
            ) + grest);
            assert(bytes@.skip(c1 as int) == ser_linear(gs.linear_index) + grest);
        }
    }
    let (linear_index, c2) = match parse_linear(bytes, c1) {
        Ok(v) => v,
        Err(e) => {
            proof {
                if hyp {
                    assert(false);
                }
            }
            return Err(e);
        },
    };
    let s = SequenceIndex { bins, linear_index, last_start: None };
    proof {
        assert(ser_seq_index(s) =~= bytes@.subrange(pos as int, c2 as int));
        if hyp {
            assert forall|gs: SequenceIndex, rest: Seq<u8>|
                (gs.linear_index matches Some(l) ==> l.wf()) && bytes@.skip(pos as int)
                    == #[trigger] (ser_seq_index(gs) + rest) implies c2 == pos + ser_seq_index(
                gs,
            ).len() by {
                assert(bytes@.skip(pos as int) =~= ser_bins(gs.bins@) + (ser_linear(
                    gs.linear_index,
                ) + rest));
                lemma_align_bins(bytes@, pos as int, c1 as int, s.bins@, gs.bins@, ser_linear(
                    gs.linear_index,
                ) + rest);
                assert(bytes@.skip(c1 as int) == ser_linear(gs.linear_index) + rest);
                lemma_linear_bounded_of_len(gs.linear_index, bytes@.len() - c1);
                lemma_linear_bounded_of_len(s.linear_index, bytes@.len() - c1);
                assert(ser_linear(s.linear_index) + bytes@.skip(c2 as int) =~= bytes@.skip(
                    c1 as int,
                ));
                lemma_linear_inj(
                    s.linear_index,
                    gs.linear_index,
                    bytes@.skip(c2 as int),
                    rest,
                );
                assert(ser_linear(s.linear_index).len() == ser_linear(gs.linear_index).len());
            }
        }
    }
    Ok((s, c2))
}

/// A bin map parsed off a stream that carries a serialized bin map
/// consumes exactly that map's bytes: the remainder after the parse is
/// the remainder after the serialized map.
proof fn lemma_align_bins(
    stream: Seq<u8>,
    pos: int,
    c1: int,
    parsed: Seq<(u32, Vec<Feature>)>,
    gb: Seq<(u32, Vec<Feature>)>,
    tail: Seq<u8>,
)
    requires
        0 <= pos <= c1 <= stream.len(),
        stream.len() < 0x1_0000_0000_0000_0000,
        ser_bins(parsed) == stream.subrange(pos, c1),
        stream.skip(pos) == ser_bins(gb) + tail,
    ensures
        c1 == pos + ser_bins(gb).len(),
        stream.skip(c1) == tail,
{
    lemma_auto_spec_u64_to_from_le_bytes();
    // Equal count prefixes.
    assert(stream.skip(pos) =~= ser_bins(parsed) + stream.skip(c1));
    assert(ser_bins(parsed) + stream.skip(c1) =~= spec_u64_to_le_bytes(parsed.len() as u64) + (
    ser_bins_body(parsed) + stream.skip(c1)));
    assert(ser_bins(gb) + tail =~= spec_u64_to_le_bytes(gb.len() as u64) + (ser_bins_body(gb)
        + tail));
    lemma_u64_prefix_inj(
        parsed.len() as u64,
        gb.len() as u64,
        ser_bins_body(parsed) + stream.skip(c1),
        ser_bins_body(gb) + tail,
    );
    lemma_ser_bins_body_min_len(parsed);
    lemma_ser_bins_body_min_len(gb);
    assert(parsed.len() == gb.len()) by {
        assert(spec_u64_from_le_wrap(spec_u64_to_le_bytes(parsed.len() as u64))
            == parsed.len() as u64);
        assert(spec_u64_from_le_wrap(spec_u64_to_le_bytes(gb.len() as u64)) == gb.len() as u64);
        assert(12 * parsed.len() <= stream.len());
        assert(12 * gb.len() <= stream.len());
    }
    lemma_bins_bounded_of_len(parsed, stream.len() as int);
    lemma_bins_bounded_of_len(gb, stream.len() as int);
    lemma_bins_body_inj(parsed, gb, stream.skip(c1), tail);
}

/// A bin map whose serialization fits a finite stream has every feature
/// count far below the count field's range.
proof fn lemma_bins_bounded_of_len(bins: Seq<(u32, Vec<Feature>)>, cap: int)
    requires
        ser_bins_body(bins).len() <= cap,
        cap < 0x1_0000_0000_0000_0000,
    ensures
        bins_bounded(bins),
    decreases bins.len(),
{
    if bins.len() > 0 {
        lemma_ser_feature_body_len(bins.last().1@);
        lemma_bins_bounded_of_len(bins.drop_last(), cap);
        assert forall|t: int| 0 <= t < bins.len() implies (#[trigger] bins[t]).1@.len()
            < 0x1_0000_0000_0000_0000 by {
            if t < bins.len() - 1 {
                assert(bins.drop_last()[t] == bins[t]);
            } else {
                assert(24 * bins.last().1@.len() <= cap);
            }
        }
    }
}

/// An optional linear index whose serialization fits a finite stream is
/// bounded.
proof fn lemma_linear_bounded_of_len(ol: Option<LinearIndex>, cap: int)
    requires
        ser_linear(ol).len() <= cap,
        cap < 0x1_0000_0000_0000_0000,
    ensures
        linear_bounded(ol),
{
    match ol {
        None => {},
        Some(l) => {
            lemma_ser_u64_body_len(l.spec_entries());
        },
    }
}

/// Whether an index (with its optional metadata) is one that writes
/// these bytes and whose linear indexes carry valid shifts — the shape
/// the parser is owed to accept.
pub open spec fn parsable_index(ix2: BinningIndex, m2: Option<Seq<u8>>, bs: Seq<u8>) -> bool {
    &&& (forall|t: int|
        0 <= t < ix2.sequences@.len() ==> ((#[trigger] ix2.sequences@[t]).1.linear_index matches Some(
            l,
        ) ==> l.wf()))
    &&& bs == ser_index_file(ix2, m2)
}

/// A sequences map body serializes to at least 17 bytes per entry.
proof fn lemma_ser_sequences_body_min_len(seqs: Seq<(Vec<u8>, SequenceIndex)>)
    ensures
        ser_sequences_body(seqs).len() >= 17 * seqs.len(),
    decreases seqs.len(),
{
    if seqs.len() > 0 {
        lemma_ser_sequences_body_min_len(seqs.drop_last());
        lemma_auto_spec_u64_to_from_le_bytes();
        match seqs.last().1.linear_index {
            None => {},
            Some(l) => {
                lemma_ser_u64_body_len(l.spec_entries());
                lemma_auto_spec_u32_to_from_le_bytes();
            },
        }
    }
}

/// Parse the index file: the schema tag, the sequences, the transient
/// sort state (which must be absent), and the optional metadata blob,
/// with nothing after it.
#[verifier::rlimit(100)]
#[verifier::spinoff_prover]
pub fn deserialize_index(bytes: &[u8]) -> (r: Result<(BinningIndex, Option<Vec<u8>>), HgIndexError>)
    ensures
        match r {
            Ok((ix, m)) => {
                &&& ix.query_wf()
                &&& ix.bins.wf()
                &&& ix.bins.base_shift == crate::binning::schema_base_shift(ix.bins.schema)
                &&& ix.bins.level_shift == crate::binning::schema_level_shift(ix.bins.schema)
                &&& ix.bins.num_levels == crate::binning::schema_num_levels(ix.bins.schema)
                &&& ix.bins.linear_shift == crate::binning::schema_linear_shift(ix.bins.schema)
                &&& ix.last_chrom.is_none()
                &&& ix.last_start.is_none()
                &&& bytes@ == ser_index_file(ix, match m {
                    Some(b) => Some(b@),
                    None => None,
                })
            },
            Err(e) => {
                &&& e == HgIndexError::DeserializationError
                // Success is owed on every file the serializer writes
                // for an index with valid linear shifts.
                &&& !(exists|ix2: BinningIndex, m2: Option<Seq<u8>>|
                    #[trigger] parsable_index(ix2, m2, bytes@))
            },
        },
{
    proof {
        lemma_auto_spec_u32_to_from_le_bytes();
        lemma_auto_spec_u64_to_from_le_bytes();
    }
    let ghost hyp = exists|ix2: BinningIndex, m2: Option<Seq<u8>>|
        #[trigger] parsable_index(ix2, m2, bytes@);
    let ghost g = choose|ix2: BinningIndex, m2: Option<Seq<u8>>|
        #[trigger] parsable_index(ix2, m2, bytes@);
    let blen = bytes.len();
    let ghost gtail = seq![0u8] + (seq![0u8] + ser_metadata(match g.1 {
        Some(b) => Some(b),
        None => None,
    }));
    proof {
        if hyp {
            let gix = g.0;
            lemma_ser_sequences_body_min_len(gix.sequences@);
            assert(bytes@ =~= bytes@.skip(0));
            assert(bytes@.skip(0) =~= spec_u32_to_le_bytes(schema_tag(gix.bins.schema)) + (
            spec_u64_to_le_bytes(gix.sequences@.len() as u64) + (ser_sequences_body(
                gix.sequences@,
            ) + gtail)));
            assert forall|j: int| 0 <= j < 4 implies #[trigger] bytes@.subrange(0, 4)[j]
                == spec_u32_to_le_bytes(schema_tag(gix.bins.schema))[j] by {
                assert(bytes@.subrange(0, 4)[j] == bytes@[j]);
                assert(bytes@[j] == bytes@.skip(0)[j]);
            }
            assert(bytes@.subrange(0, 4) =~= spec_u32_to_le_bytes(schema_tag(gix.bins.schema)));
            assert forall|j: int| 0 <= j < 8 implies #[trigger] bytes@.subrange(4, 12)[j]
                == spec_u64_to_le_bytes(gix.sequences@.len() as u64)[j] by {
                assert(bytes@.subrange(4, 12)[j] == bytes@[4 + j]);
                assert(bytes@[4 + j] == bytes@.skip(0)[4 + j]);
            }
            assert(bytes@.subrange(4, 12) =~= spec_u64_to_le_bytes(
                gix.sequences@.len() as u64,
            ));
        }
    }
    let (tag, c0) = match parse_u32(bytes, 0) {
        Ok(v) => v,
        Err(e) => {
            proof {
                if hyp {
                    assert(false);
                }
            }
            return Err(e);
        },
    };
    let schema = if tag == 0 {
        BinningSchema::Tabix
    } else if tag == 1 {
        BinningSchema::TabixNoLinear
    } else if tag == 2 {
        BinningSchema::Ucsc
    } else if tag == 3 {
        BinningSchema::UcscNoLinear
    } else if tag == 4 {
        BinningSchema::Dense
    } else if tag == 5 {
        BinningSchema::Sparse
    } else {
        proof {
            if hyp {
                lemma_u32_prefix_inj(tag, schema_tag(g.0.bins.schema), Seq::empty(), Seq::empty());
                assert(false);
            }
        }
        return Err(HgIndexError::DeserializationError);
    };
    let bins = HierarchicalBins::from_schema(&schema);
    let (count, start_cur) = match parse_u64(bytes, c0) {
        Ok(v) => v,
        Err(e) => {
            proof {
                if hyp {
                    assert(false);
                }
            }
            return Err(e);
        },
    };
    let mut cur = start_cur;
    proof {
        if hyp {
            let gix = g.0;
            lemma_u64_prefix_inj(count, gix.sequences@.len() as u64, Seq::empty(), Seq::empty());
            assert(17 * gix.sequences@.len() <= blen as int);
            assert(gix.sequences@.len() < 0x1_0000_0000_0000_0000);
            assert(count == gix.sequences@.len());
        }
    }
    // Each sequence entry takes at least 17 bytes.
    if count > ((bytes.len() - cur) / 17) as u64 {
        proof {
            if hyp {
                assert(17 * g.0.sequences@.len() <= bytes@.len() - cur);
                assert(false);
            }
        }
        return Err(HgIndexError::DeserializationError);
    }
    let n = count as usize;
    proof {
        if hyp {
            let gix = g.0;
            assert(gix.sequences@.skip(0) =~= gix.sequences@);
            assert forall|j: int| 0 <= j < bytes@.len() - cur implies #[trigger] bytes@.skip(
                cur as int,
            )[j] == (ser_sequences_body(gix.sequences@) + gtail)[j] by {
                assert(bytes@.skip(cur as int)[j] == bytes@[cur as int + j]);
                assert(bytes@[cur as int + j] == bytes@.skip(0)[12 + j]);
            }
            assert(bytes@.skip(cur as int) =~= ser_sequences_body(gix.sequences@) + gtail);
            assert(bytes@.skip(cur as int) == ser_sequences_body(gix.sequences@.skip(0)) + gtail);
        }
    }
    let mut sequences: Vec<(Vec<u8>, SequenceIndex)> = Vec::new();
    let ghost body_start = cur as int;
    let mut i: usize = 0;
    while i < n
        invariant
            i <= n,
            sequences@.len() == i,
            0 <= body_start <= cur as int <= bytes@.len(),
            ser_sequences_body(sequences@) == bytes@.subrange(body_start, cur as int),
            forall|t: int| 0 <= t < sequences@.len() ==> (#[trigger] sequences@[t]).1.linear_wf(),
            hyp == (exists|ix2: BinningIndex, m2: Option<Seq<u8>>|
                #[trigger] parsable_index(ix2, m2, bytes@)),
            hyp ==> parsable_index(g.0, g.1, bytes@),
            hyp ==> g.0.sequences@.len() == n && bytes@.skip(cur as int) == ser_sequences_body(
                g.0.sequences@.skip(i as int),
            ) + gtail,
            blen == bytes@.len(),
        decreases n - i,
    {
        proof {
            lemma_auto_spec_u32_to_from_le_bytes();
            lemma_auto_spec_u64_to_from_le_bytes();
            if hyp {
                let gseqs = g.0.sequences@;
                let tail = gseqs.skip(i as int);
                assert(tail.len() > 0);
                assert(tail[0] == gseqs[i as int]);
                assert(tail.drop_first() =~= gseqs.skip(i as int + 1));
                lemma_sequences_body_front(tail);
                assert(ser_sequences_body(tail) + gtail =~= spec_u64_to_le_bytes(
                    gseqs[i as int].0@.len() as u64,
                ) + (gseqs[i as int].0@ + (ser_seq_index(gseqs[i as int].1) + (
                ser_sequences_body(gseqs.skip(i as int + 1)) + gtail))));
                assert(bytes@.skip(cur as int) == spec_u64_to_le_bytes(
                    gseqs[i as int].0@.len() as u64,
                ) + (gseqs[i as int].0@ + (ser_seq_index(gseqs[i as int].1) + (
                ser_sequences_body(gseqs.skip(i as int + 1)) + gtail))));
                assert forall|j: int| 0 <= j < 8 implies #[trigger] bytes@.subrange(
                    cur as int,
                    cur as int + 8,
                )[j] == spec_u64_to_le_bytes(gseqs[i as int].0@.len() as u64)[j] by {
                    assert(bytes@.subrange(cur as int, cur as int + 8)[j] == bytes@[cur as int
                        + j]);
                    assert(bytes@[cur as int + j] == bytes@.skip(cur as int)[j]);
                }
                assert(bytes@.subrange(cur as int, cur as int + 8) =~= spec_u64_to_le_bytes(
                    gseqs[i as int].0@.len() as u64,
                ));
            }
        }
        let (name_len, c1) = match parse_u64(bytes, cur) {
            Ok(v) => v,
            Err(e) => {
                proof {
                    if hyp {
                        assert(false);
                    }
                }
                return Err(e);
            },
        };
        proof {
            if hyp {
                let gseqs = g.0.sequences@;
                lemma_u64_prefix_inj(
                    name_len,
                    gseqs[i as int].0@.len() as u64,
                    Seq::empty(),
                    Seq::empty(),
                );
                assert(gseqs[i as int].0@.len() <= blen as int);
                assert(name_len == gseqs[i as int].0@.len());
            }
        }
        if name_len > (bytes.len() - c1) as u64 {
            proof {
                if hyp {
                    assert(g.0.sequences@[i as int].0@.len() <= bytes@.len() - c1);
                    assert(false);
                }
            }
            return Err(HgIndexError::DeserializationError);
        }
        let nl = name_len as usize;
        let name = slice_to_vec(slice_subrange(bytes, c1, c1 + nl));
        let c2 = c1 + nl;
        proof {
            if hyp {
                let gseqs = g.0.sequences@;
                assert forall|j: int| 0 <= j < bytes@.len() - c2 implies #[trigger] bytes@.skip(
                    c2 as int,
                )[j] == (ser_seq_index(gseqs[i as int].1) + (ser_sequences_body(
                    gseqs.skip(i as int + 1),
                ) + gtail))[j] by {
                    assert(bytes@.skip(c2 as int)[j] == bytes@[c2 as int + j]);
                    assert(bytes@[c2 as int + j] == bytes@.skip(cur as int)[8 + nl + j]);
                }
                assert(bytes@.skip(c2 as int) =~= ser_seq_index(gseqs[i as int].1) + (
                ser_sequences_body(gseqs.skip(i as int + 1)) + gtail));
                assert(gseqs[i as int].1.linear_index matches Some(l) ==> l.wf());
            }
        }
        let (seq_index, c3) = match parse_seq_index(bytes, c2) {
            Ok(v) => v,
            Err(e) => {
                proof {
                    if hyp {
                        assert(false);
                    }
                }
                return Err(e);
            },
        };
        proof {
            if hyp {
                let gseqs = g.0.sequences@;
                assert(c3 == c2 + ser_seq_index(gseqs[i as int].1).len());
                assert forall|j: int| 0 <= j < bytes@.len() - c3 implies #[trigger] bytes@.skip(
                    c3 as int,
                )[j] == (ser_sequences_body(gseqs.skip(i as int + 1)) + gtail)[j] by {
                    assert(bytes@.skip(c3 as int)[j] == bytes@[c3 as int + j]);
                    assert(bytes@[c3 as int + j] == bytes@.skip(c2 as int)[c3 - c2 + j]);
                }
                assert(bytes@.skip(c3 as int) =~= ser_sequences_body(gseqs.skip(i as int + 1))
                    + gtail);
            }
        }
        let ghost seqs_before = sequences@;
        sequences.push((name, seq_index));
        proof {
            assert(sequences@.drop_last() =~= seqs_before);
            assert(name@ =~= bytes@.subrange(c1 as int, c2 as int));
            lemma_concat_subrange(bytes@, cur as int, c1 as int, c2 as int);
            lemma_concat_subrange(bytes@, c1 as int, c2 as int, c3 as int);
            lemma_concat_subrange(bytes@, cur as int, c2 as int, c3 as int);
            lemma_concat_subrange(bytes@, body_start, cur as int, c3 as int);
            assert(ser_sequences_body(sequences@) =~= bytes@.subrange(body_start, c3 as int));
        }
        cur = c3;
        i = i + 1;
    }
    proof {
        if hyp {
            assert(g.0.sequences@.skip(n as int) =~= Seq::<(Vec<u8>, SequenceIndex)>::empty());
            assert(ser_sequences_body(g.0.sequences@.skip(n as int)) =~= Seq::<u8>::empty());
            assert(bytes@.skip(cur as int) =~= gtail);
            assert(bytes@[cur as int] == gtail[0]);
            assert(gtail[0] == 0u8);
            assert(bytes@[cur as int + 1] == gtail[1]);
            assert(gtail[1] == 0u8);
        }
    }
    // The transient sort state must be absent on disk.
    let (lc_tag, c4) = match parse_u8(bytes, cur) {
        Ok(v) => v,
        Err(e) => {
            proof {
                if hyp {
                    assert(false);
                }
            }
            return Err(e);
        },
    };
    if lc_tag != 0 {
        proof {
            if hyp {
                assert(false);
            }
        }
        return Err(HgIndexError::DeserializationError);
    }
    let (ls_tag, c5) = match parse_u8(bytes, c4) {
        Ok(v) => v,
        Err(e) => {
            proof {
                if hyp {
                    assert(false);
                }
            }
            return Err(e);
        },
    };
    if ls_tag != 0 {
        proof {
            if hyp {
                assert(false);
            }
        }
        return Err(HgIndexError::DeserializationError);
    }
    proof {
        if hyp {
            match g.1 {
                None => {
                    assert(bytes@.skip(cur as int).len() == 3);
                    assert(bytes@[c5 as int] == gtail[2]);
                    assert(ser_metadata(None::<Seq<u8>>)[0] == 0u8);
                },
                Some(gb) => {
                    assert(bytes@.skip(cur as int).len() == 3 + 8 + gb.len());
                    assert(bytes@[c5 as int] == gtail[2]);
                    assert(gtail[2] == (seq![1u8] + spec_u64_to_le_bytes(gb.len() as u64) + gb)[
                    0]);
                    assert forall|j: int| 0 <= j < 8 implies #[trigger] bytes@.subrange(
                        c5 as int + 1,
                        c5 as int + 9,
                    )[j] == spec_u64_to_le_bytes(gb.len() as u64)[j] by {
                        assert(bytes@.subrange(c5 as int + 1, c5 as int + 9)[j] == bytes@[
                            c5 as int + 1 + j]);
                        assert(bytes@[c5 as int + 1 + j] == bytes@.skip(cur as int)[3 + j]);
                        assert(gtail[3 + j] == (seq![1u8] + spec_u64_to_le_bytes(
                            gb.len() as u64,
                        ) + gb)[1 + j]);
                    }
                    assert(bytes@.subrange(c5 as int + 1, c5 as int + 9)
                        =~= spec_u64_to_le_bytes(gb.len() as u64));
                },
            }
        }
    }
    // The optional metadata blob, which must end the file.
    let (m_tag, c6) = match parse_u8(bytes, c5) {
        Ok(v) => v,
        Err(e) => {
            proof {
                if hyp {
                    assert(false);
                }
            }
            return Err(e);
        },
    };
    let ix = BinningIndex { bins, sequences, last_chrom: None, last_start: None };
    if m_tag == 0 {
        if c6 != bytes.len() {
            proof {
                if hyp {
                    match g.1 {
                        None => {
                            assert(false);
                        },
                        Some(gb) => {
                            assert(false);
                        },
                    }
                }
            }
            return Err(HgIndexError::DeserializationError);
        }
        proof {
            assert(bytes@.subrange(0, bytes@.len() as int) =~= bytes@);
            assert(ser_index_file(ix, None::<Seq<u8>>) =~= bytes@);
        }
        return Ok((ix, None));
    }
    if m_tag != 1 {
        proof {
            if hyp {
                match g.1 {
                    None => {
                        assert(false);
                    },
                    Some(gb) => {
                        assert(false);
                    },
                }
            }
        }
        return Err(HgIndexError::DeserializationError);
    }
    let (m_len, c7) = match parse_u64(bytes, c6) {
        Ok(v) => v,
        Err(e) => {
            proof {
                if hyp {
                    match g.1 {
                        None => {
                            assert(false);
                        },
                        Some(gb) => {
                            assert(false);
                        },
                    }
                }
            }
            return Err(e);
        },
    };
    if m_len != (bytes.len() - c7) as u64 {
        proof {
            if hyp {
                match g.1 {
                    None => {
                        assert(false);
                    },
                    Some(gb) => {
                        lemma_u64_prefix_inj(m_len, gb.len() as u64, Seq::empty(), Seq::empty());
                        assert(gb.len() == bytes@.len() - c7);
                        assert(false);
                    },
                }
            }
        }
        return Err(HgIndexError::DeserializationError);
    }
    let ml = m_len as usize;
    let blob = slice_to_vec(slice_subrange(bytes, c7, c7 + ml));
    proof {
        assert(bytes@.subrange(c7 as int, c7 as int + ml as int) =~= bytes@.subrange(c7 as int, bytes@.len() as int));
        assert(ser_index_file(ix, Some(blob@)) =~= bytes@);
    }
    Ok((ix, Some(blob)))
}




/// Splitting equal concatenations at the same point yields equal parts.
proof fn lemma_concat_split(s1: Seq<u8>, x: Seq<u8>, s2: Seq<u8>, y: Seq<u8>)
    requires
        s1 + x == s2 + y,
        s1.len() == s2.len(),
    ensures
        s1 == s2,
        x == y,
{
    assert(s1 =~= (s1 + x).subrange(0, s1.len() as int));
    assert(s2 =~= (s2 + y).subrange(0, s2.len() as int));
    assert(x =~= (s1 + x).subrange(s1.len() as int, (s1 + x).len() as int));
    assert(y =~= (s2 + y).subrange(s2.len() as int, (s2 + y).len() as int));
}

/// One feature serializes to 24 bytes.
proof fn lemma_ser_feature_len(f: Feature)
    ensures
        ser_feature(f).len() == 24,
{
    lemma_auto_spec_u32_to_from_le_bytes();
    lemma_auto_spec_u64_to_from_le_bytes();
}

/// A feature list body serializes to 24 bytes per entry.
proof fn lemma_ser_feature_body_len(fs: Seq<Feature>)
    ensures
        ser_feature_body(fs).len() == 24 * fs.len(),
    decreases fs.len(),
{
    if fs.len() > 0 {
        lemma_ser_feature_body_len(fs.drop_last());
        lemma_ser_feature_len(fs.last());
    }
}

/// A cell list body serializes to 8 bytes per cell.
proof fn lemma_ser_u64_body_len(es: Seq<u64>)
    ensures
        ser_u64_body(es).len() == 8 * es.len(),
    decreases es.len(),
{
    if es.len() > 0 {
        lemma_ser_u64_body_len(es.drop_last());
        lemma_auto_spec_u64_to_from_le_bytes();
    }
}

/// A bin map body serializes to at least 12 bytes per entry.
proof fn lemma_ser_bins_body_min_len(bins: Seq<(u32, Vec<Feature>)>)
    ensures
        ser_bins_body(bins).len() >= 12 * bins.len(),
    decreases bins.len(),
{
    if bins.len() > 0 {
        lemma_ser_bins_body_min_len(bins.drop_last());
        lemma_auto_spec_u32_to_from_le_bytes();
        lemma_auto_spec_u64_to_from_le_bytes();
    }
}

/// The inverse little-endian reading, named so congruence can apply it
/// to equal byte strings.
pub open spec fn spec_u64_from_le_wrap(s: Seq<u8>) -> u64 {
    vstd::bytes::spec_u64_from_le_bytes(s)
}

/// Reading equal number prefixes off equal streams gives equal values.
proof fn lemma_u64_prefix_inj(a: u64, b: u64, x: Seq<u8>, y: Seq<u8>)
    requires
        spec_u64_to_le_bytes(a) + x == spec_u64_to_le_bytes(b) + y,
    ensures
        a == b,
        x == y,
{
    lemma_auto_spec_u64_to_from_le_bytes();
    lemma_concat_split(spec_u64_to_le_bytes(a), x, spec_u64_to_le_bytes(b), y);
}

/// Reading equal number prefixes off equal streams gives equal values.
proof fn lemma_u32_prefix_inj(a: u32, b: u32, x: Seq<u8>, y: Seq<u8>)
    requires
        spec_u32_to_le_bytes(a) + x == spec_u32_to_le_bytes(b) + y,
    ensures
        a == b,
        x == y,
{
    lemma_auto_spec_u32_to_from_le_bytes();
    lemma_concat_split(spec_u32_to_le_bytes(a), x, spec_u32_to_le_bytes(b), y);
}

/// A feature list body decomposes at its front.
proof fn lemma_feature_body_front(fs: Seq<Feature>)
    requires
        fs.len() > 0,
    ensures
        ser_feature_body(fs) == ser_feature(fs[0]) + ser_feature_body(fs.drop_first()),
    decreases fs.len(),
{
    if fs.len() == 1 {
        assert(fs.drop_last() =~= Seq::<Feature>::empty());
        assert(fs.drop_first() =~= Seq::<Feature>::empty());
        assert(fs.last() == fs[0]);
        assert(ser_feature(fs[0]) + ser_feature_body(fs.drop_first()) =~= ser_feature(fs[0]));
    } else {
        lemma_feature_body_front(fs.drop_last());
        assert(fs.drop_last()[0] == fs[0]);
        assert(fs.drop_last().drop_first() =~= fs.drop_first().drop_last());
        assert(fs.drop_first().last() == fs.last());
        assert(ser_feature(fs[0]) + ser_feature_body(fs.drop_first().drop_last()) + ser_feature(
            fs.last(),
        ) =~= ser_feature(fs[0]) + (ser_feature_body(fs.drop_first().drop_last()) + ser_feature(
            fs.last(),
        )));
    }
}

/// Two equal-length feature lists whose serializations prefix the same
/// stream are the same list, and the remainders agree.
#[verifier::spinoff_prover]
#[verifier::rlimit(60)]
proof fn lemma_feature_body_inj(a: Seq<Feature>, b: Seq<Feature>, x: Seq<u8>, y: Seq<u8>)
    requires
        a.len() == b.len(),
        ser_feature_body(a) + x == ser_feature_body(b) + y,
    ensures
        a == b,
        x == y,
    decreases a.len(),
{
    lemma_ser_feature_body_len(a);
    lemma_ser_feature_body_len(b);
    lemma_concat_split(ser_feature_body(a), x, ser_feature_body(b), y);
    if a.len() == 0 {
        assert(a =~= b);
    } else {
        lemma_feature_body_front(a);
        lemma_feature_body_front(b);
        lemma_ser_feature_len(a[0]);
        lemma_ser_feature_len(b[0]);
        assert(ser_feature(a[0]) + ser_feature_body(a.drop_first()) == ser_feature(b[0])
            + ser_feature_body(b.drop_first()));
        lemma_concat_split(
            ser_feature(a[0]),
            ser_feature_body(a.drop_first()),
            ser_feature(b[0]),
            ser_feature_body(b.drop_first()),
        );
        // Equal 24-byte frames carry equal fields; peel them in turn.
        let ta = spec_u32_to_le_bytes(a[0].end) + spec_u64_to_le_bytes(a[0].index)
            + spec_u64_to_le_bytes(a[0].length);
        let tb = spec_u32_to_le_bytes(b[0].end) + spec_u64_to_le_bytes(b[0].index)
            + spec_u64_to_le_bytes(b[0].length);
        assert(ser_feature(a[0]) =~= spec_u32_to_le_bytes(a[0].start) + ta);
        assert(ser_feature(b[0]) =~= spec_u32_to_le_bytes(b[0].start) + tb);
        lemma_u32_prefix_inj(a[0].start, b[0].start, ta, tb);
        let ua = spec_u64_to_le_bytes(a[0].index) + spec_u64_to_le_bytes(a[0].length);
        let ub = spec_u64_to_le_bytes(b[0].index) + spec_u64_to_le_bytes(b[0].length);
        assert(ta =~= spec_u32_to_le_bytes(a[0].end) + ua);
        assert(tb =~= spec_u32_to_le_bytes(b[0].end) + ub);
        lemma_u32_prefix_inj(a[0].end, b[0].end, ua, ub);
        lemma_u64_prefix_inj(
            a[0].index,
            b[0].index,
            spec_u64_to_le_bytes(a[0].length),
            spec_u64_to_le_bytes(b[0].length),
        );
        lemma_u64_prefix_inj(a[0].length, b[0].length, Seq::empty(), Seq::empty());
        assert(a[0] == b[0]);
        lemma_feature_body_inj(a.drop_first(), b.drop_first(), Seq::empty(), Seq::empty());
        assert forall|i: int| 0 <= i < a.len() implies a[i] == b[i] by {
            if i > 0 {
                assert(a.drop_first()[i - 1] == b.drop_first()[i - 1]);
            }
        }
        assert(a =~= b);
    }
}



/// A cell list body decomposes at its front.
proof fn lemma_u64_body_front(es: Seq<u64>)
    requires
        es.len() > 0,
    ensures
        ser_u64_body(es) == spec_u64_to_le_bytes(es[0]) + ser_u64_body(es.drop_first()),
    decreases es.len(),
{
    if es.len() == 1 {
        assert(es.drop_last() =~= Seq::<u64>::empty());
        assert(es.drop_first() =~= Seq::<u64>::empty());
        assert(es.last() == es[0]);
        assert(spec_u64_to_le_bytes(es[0]) + ser_u64_body(es.drop_first()) =~= spec_u64_to_le_bytes(
            es[0],
        ));
    } else {
        lemma_u64_body_front(es.drop_last());
        assert(es.drop_last()[0] == es[0]);
        assert(es.drop_last().drop_first() =~= es.drop_first().drop_last());
        assert(es.drop_first().last() == es.last());
        assert(spec_u64_to_le_bytes(es[0]) + ser_u64_body(es.drop_first().drop_last())
            + spec_u64_to_le_bytes(es.last()) =~= spec_u64_to_le_bytes(es[0]) + (ser_u64_body(
            es.drop_first().drop_last(),
        ) + spec_u64_to_le_bytes(es.last())));
    }
}

/// Two equal-length cell lists whose serializations prefix the same
/// stream are the same list, and the remainders agree.
proof fn lemma_u64_body_inj(a: Seq<u64>, b: Seq<u64>, x: Seq<u8>, y: Seq<u8>)
    requires
        a.len() == b.len(),
        ser_u64_body(a) + x == ser_u64_body(b) + y,
    ensures
        a == b,
        x == y,
    decreases a.len(),
{
    lemma_ser_u64_body_len(a);
    lemma_ser_u64_body_len(b);
    lemma_concat_split(ser_u64_body(a), x, ser_u64_body(b), y);
    if a.len() == 0 {
        assert(a =~= b);
    } else {
        lemma_u64_body_front(a);
        lemma_u64_body_front(b);
        lemma_auto_spec_u64_to_from_le_bytes();
        lemma_u64_prefix_inj(a[0], b[0], ser_u64_body(a.drop_first()), ser_u64_body(b.drop_first()));
        lemma_u64_body_inj(a.drop_first(), b.drop_first(), Seq::empty(), Seq::empty());
        assert forall|i: int| 0 <= i < a.len() implies a[i] == b[i] by {
            if i > 0 {
                assert(a.drop_first()[i - 1] == b.drop_first()[i - 1]);
            }
        }
        assert(a =~= b);
    }
}

/// Whether an optional linear index is small enough for its cell count
/// to be unambiguous on disk; every vector-backed value is.
pub open spec fn linear_bounded(l: Option<LinearIndex>) -> bool {
    l matches Some(li) ==> li.spec_entries().len() < 0x1_0000_0000_0000_0000
}

/// Two optional linear indexes whose serializations prefix the same
/// stream have equal views, and the remainders agree.
proof fn lemma_linear_inj(
    la: Option<LinearIndex>,
    lb: Option<LinearIndex>,
    x: Seq<u8>,
    y: Seq<u8>,
)
    requires
        linear_bounded(la),
        linear_bounded(lb),
        ser_linear(la) + x == ser_linear(lb) + y,
    ensures
        la is Some <==> lb is Some,
        (match (la, lb) {
            (Some(a), Some(b)) => a.spec_entries() == b.spec_entries() && a.spec_shift()
                == b.spec_shift(),
            _ => true,
        }),
        x == y,
{
    lemma_auto_spec_u32_to_from_le_bytes();
    lemma_auto_spec_u64_to_from_le_bytes();
    let sa = ser_linear(la);
    let sb = ser_linear(lb);
    // The one-byte presence tag decides the variant.
    assert(sa[0] == (match la {
        None => 0u8,
        Some(_) => 1u8,
    }));
    assert(sb[0] == (match lb {
        None => 0u8,
        Some(_) => 1u8,
    }));
    assert((sa + x)[0] == sa[0]);
    assert((sb + y)[0] == sb[0]);
    match (la, lb) {
        (None, None) => {
            lemma_concat_split(sa, x, sb, y);
        },
        (Some(a), Some(b)) => {
            let ha = seq![1u8] + spec_u64_to_le_bytes(a.spec_entries().len() as u64);
            let hb = seq![1u8] + spec_u64_to_le_bytes(b.spec_entries().len() as u64);
            let ra = ser_u64_body(a.spec_entries()) + spec_u32_to_le_bytes(a.spec_shift());
            let rb = ser_u64_body(b.spec_entries()) + spec_u32_to_le_bytes(b.spec_shift());
            assert(sa =~= ha + ra);
            assert(sb =~= hb + rb);
            assert((sa + x) =~= ha + (ra + x));
            assert((sb + y) =~= hb + (rb + y));
            lemma_concat_split(ha, ra + x, hb, rb + y);
            // Equal count prefixes give equal cell counts.
            assert(spec_u64_to_le_bytes(a.spec_entries().len() as u64) =~= ha.subrange(1, 9));
            assert(spec_u64_to_le_bytes(b.spec_entries().len() as u64) =~= hb.subrange(1, 9));
            lemma_u64_prefix_inj(
                a.spec_entries().len() as u64,
                b.spec_entries().len() as u64,
                Seq::empty(),
                Seq::empty(),
            );
            assert(a.spec_entries().len() == b.spec_entries().len());
            assert(ra + x =~= ser_u64_body(a.spec_entries()) + (spec_u32_to_le_bytes(
                a.spec_shift(),
            ) + x));
            assert(rb + y =~= ser_u64_body(b.spec_entries()) + (spec_u32_to_le_bytes(
                b.spec_shift(),
            ) + y));
            lemma_u64_body_inj(
                a.spec_entries(),
                b.spec_entries(),
                spec_u32_to_le_bytes(a.spec_shift()) + x,
                spec_u32_to_le_bytes(b.spec_shift()) + y,
            );
            lemma_u32_prefix_inj(a.spec_shift(), b.spec_shift(), x, y);
        },
        _ => {
            assert(false);
        },
    }
}



/// Whether every feature list of a bin map is small enough for its
/// count to be unambiguous on disk; every vector-backed value is.
pub open spec fn bins_bounded(bins: Seq<(u32, Vec<Feature>)>) -> bool {
    forall|t: int| 0 <= t < bins.len() ==> (#[trigger] bins[t]).1@.len()
        < 0x1_0000_0000_0000_0000
}

/// A bin map body decomposes at its front.
proof fn lemma_bins_body_front(bins: Seq<(u32, Vec<Feature>)>)
    requires
        bins.len() > 0,
    ensures
        ser_bins_body(bins) == spec_u32_to_le_bytes(bins[0].0) + ser_features(bins[0].1@)
            + ser_bins_body(bins.drop_first()),
    decreases bins.len(),
{
    if bins.len() == 1 {
        assert(bins.drop_last() =~= Seq::<(u32, Vec<Feature>)>::empty());
        assert(bins.drop_first() =~= Seq::<(u32, Vec<Feature>)>::empty());
        assert(bins.last() == bins[0]);
        assert(spec_u32_to_le_bytes(bins[0].0) + ser_features(bins[0].1@) + ser_bins_body(
            bins.drop_first(),
        ) =~= spec_u32_to_le_bytes(bins[0].0) + ser_features(bins[0].1@));
    } else {
        lemma_bins_body_front(bins.drop_last());
        assert(bins.drop_last()[0] == bins[0]);
        assert(bins.drop_last().drop_first() =~= bins.drop_first().drop_last());
        assert(bins.drop_first().last() == bins.last());
        assert(spec_u32_to_le_bytes(bins[0].0) + ser_features(bins[0].1@) + ser_bins_body(
            bins.drop_first().drop_last(),
        ) + spec_u32_to_le_bytes(bins.last().0) + ser_features(bins.last().1@)
            =~= spec_u32_to_le_bytes(bins[0].0) + ser_features(bins[0].1@) + (ser_bins_body(
            bins.drop_first().drop_last(),
        ) + spec_u32_to_le_bytes(bins.last().0) + ser_features(bins.last().1@)));
    }
}

/// Two equal-length bin maps whose serializations prefix the same
/// stream agree id by id and list by list, and the remainders agree.
#[verifier::spinoff_prover]
#[verifier::rlimit(60)]
proof fn lemma_bins_body_inj(
    a: Seq<(u32, Vec<Feature>)>,
    b: Seq<(u32, Vec<Feature>)>,
    x: Seq<u8>,
    y: Seq<u8>,
)
    requires
        a.len() == b.len(),
        bins_bounded(a),
        bins_bounded(b),
        ser_bins_body(a) + x == ser_bins_body(b) + y,
    ensures
        forall|i: int| 0 <= i < a.len() ==> (#[trigger] a[i]).0 == b[i].0 && a[i].1@ == b[i].1@,
        x == y,
    decreases a.len(),
{
    if a.len() == 0 {
        assert(ser_bins_body(a) =~= Seq::<u8>::empty());
        assert(ser_bins_body(b) =~= Seq::<u8>::empty());
        lemma_concat_split(ser_bins_body(a), x, ser_bins_body(b), y);
    } else {
        lemma_bins_body_front(a);
        lemma_bins_body_front(b);
        let ra = ser_features(a[0].1@) + ser_bins_body(a.drop_first()) + x;
        let rb = ser_features(b[0].1@) + ser_bins_body(b.drop_first()) + y;
        assert(ser_bins_body(a) + x =~= spec_u32_to_le_bytes(a[0].0) + ra);
        assert(ser_bins_body(b) + y =~= spec_u32_to_le_bytes(b[0].0) + rb);
        lemma_u32_prefix_inj(a[0].0, b[0].0, ra, rb);
        // The feature counts open each list.
        let ca = spec_u64_to_le_bytes(a[0].1@.len() as u64);
        let cb = spec_u64_to_le_bytes(b[0].1@.len() as u64);
        let fa = ser_feature_body(a[0].1@) + (ser_bins_body(a.drop_first()) + x);
        let fb = ser_feature_body(b[0].1@) + (ser_bins_body(b.drop_first()) + y);
        assert(ra =~= ca + fa);
        assert(rb =~= cb + fb);
        lemma_u64_prefix_inj(a[0].1@.len() as u64, b[0].1@.len() as u64, fa, fb);
        assert(a[0].1@.len() == b[0].1@.len());
        lemma_feature_body_inj(
            a[0].1@,
            b[0].1@,
            ser_bins_body(a.drop_first()) + x,
            ser_bins_body(b.drop_first()) + y,
        );
        assert forall|t: int| 0 <= t < a.drop_first().len() implies (
        #[trigger] a.drop_first()[t]).1@.len() < 0x1_0000_0000_0000_0000 by {
            assert(a.drop_first()[t] == a[t + 1]);
        }
        assert forall|t: int| 0 <= t < b.drop_first().len() implies (
        #[trigger] b.drop_first()[t]).1@.len() < 0x1_0000_0000_0000_0000 by {
            assert(b.drop_first()[t] == b[t + 1]);
        }
        lemma_bins_body_inj(a.drop_first(), b.drop_first(), x, y);
        assert forall|i: int| 0 <= i < a.len() implies (#[trigger] a[i]).0 == b[i].0 && a[i].1@
            == b[i].1@ by {
            if i > 0 {
                assert(a.drop_first()[i - 1].0 == b.drop_first()[i - 1].0);
                assert(a.drop_first()[i - 1].1@ == b.drop_first()[i - 1].1@);
            }
        }
    }
}



/// Whether one per-sequence index has all its component counts small
/// enough to be unambiguous on disk; every vector-backed value does.
pub open spec fn seq_index_bounded(s: SequenceIndex) -> bool {
    &&& s.bins@.len() < 0x1_0000_0000_0000_0000
    &&& bins_bounded(s.bins@)
    &&& linear_bounded(s.linear_index)
}

/// Whether a whole index has all its component counts small enough to
/// be unambiguous on disk; every vector-backed value does.
pub open spec fn index_bounded(ix: BinningIndex) -> bool {
    &&& ix.sequences@.len() < 0x1_0000_0000_0000_0000
    &&& (forall|t: int| 0 <= t < ix.sequences@.len() ==> (#[trigger] ix.sequences@[t]).0@.len()
        < 0x1_0000_0000_0000_0000 && seq_index_bounded(ix.sequences@[t].1))
}

/// View-level equality of two per-sequence indexes: same bin ids and
/// feature lists, same linear cells and shift.  The transient sort state
/// is not persisted, so serialization cannot and does not determine it.
pub open spec fn seq_index_like(a: SequenceIndex, b: SequenceIndex) -> bool {
    &&& a.bins@.len() == b.bins@.len()
    &&& (forall|i: int| 0 <= i < a.bins@.len() ==> (#[trigger] a.bins@[i]).0 == b.bins@[i].0
        && a.bins@[i].1@ == b.bins@[i].1@)
    &&& (a.linear_index is Some <==> b.linear_index is Some)
    &&& (match (a.linear_index, b.linear_index) {
        (Some(la), Some(lb)) => la.spec_entries() == lb.spec_entries() && la.spec_shift()
            == lb.spec_shift(),
        _ => true,
    })
}

/// View-level equality of two whole indexes: same schema, same sequence
/// names, and view-equal per-sequence indexes.
pub open spec fn index_like(a: BinningIndex, b: BinningIndex) -> bool {
    &&& a.bins.schema == b.bins.schema
    &&& a.sequences@.len() == b.sequences@.len()
    &&& (forall|t: int| 0 <= t < a.sequences@.len() ==> (#[trigger] a.sequences@[t]).0@
        == b.sequences@[t].0@ && seq_index_like(a.sequences@[t].1, b.sequences@[t].1))
}

/// A sequences map body decomposes at its front.
proof fn lemma_sequences_body_front(seqs: Seq<(Vec<u8>, SequenceIndex)>)
    requires
        seqs.len() > 0,
    ensures
        ser_sequences_body(seqs) == spec_u64_to_le_bytes(seqs[0].0@.len() as u64) + seqs[0].0@
            + ser_seq_index(seqs[0].1) + ser_sequences_body(seqs.drop_first()),
    decreases seqs.len(),
{
    if seqs.len() == 1 {
        assert(seqs.drop_last() =~= Seq::<(Vec<u8>, SequenceIndex)>::empty());
        assert(seqs.drop_first() =~= Seq::<(Vec<u8>, SequenceIndex)>::empty());
        assert(seqs.last() == seqs[0]);
        assert(spec_u64_to_le_bytes(seqs[0].0@.len() as u64) + seqs[0].0@ + ser_seq_index(
            seqs[0].1,
        ) + ser_sequences_body(seqs.drop_first()) =~= spec_u64_to_le_bytes(
            seqs[0].0@.len() as u64,
        ) + seqs[0].0@ + ser_seq_index(seqs[0].1));
    } else {
        lemma_sequences_body_front(seqs.drop_last());
        assert(seqs.drop_last()[0] == seqs[0]);
        assert(seqs.drop_last().drop_first() =~= seqs.drop_first().drop_last());
        assert(seqs.drop_first().last() == seqs.last());
        assert(spec_u64_to_le_bytes(seqs[0].0@.len() as u64) + seqs[0].0@ + ser_seq_index(
            seqs[0].1,
        ) + ser_sequences_body(seqs.drop_first().drop_last()) + spec_u64_to_le_bytes(
            seqs.last().0@.len() as u64,
        ) + seqs.last().0@ + ser_seq_index(seqs.last().1) =~= spec_u64_to_le_bytes(
            seqs[0].0@.len() as u64,
        ) + seqs[0].0@ + ser_seq_index(seqs[0].1) + (ser_sequences_body(
            seqs.drop_first().drop_last(),
        ) + spec_u64_to_le_bytes(seqs.last().0@.len() as u64) + seqs.last().0@ + ser_seq_index(
            seqs.last().1,
        )));
    }
}

/// Two equal-length sequences maps whose serializations prefix the same
/// stream agree name by name and index by index, and the remainders
/// agree.
#[verifier::spinoff_prover]
#[verifier::rlimit(100)]
proof fn lemma_sequences_body_inj(
    a: Seq<(Vec<u8>, SequenceIndex)>,
    b: Seq<(Vec<u8>, SequenceIndex)>,
    x: Seq<u8>,
    y: Seq<u8>,
)
    requires
        a.len() == b.len(),
        forall|t: int| 0 <= t < a.len() ==> (#[trigger] a[t]).0@.len() < 0x1_0000_0000_0000_0000
            && seq_index_bounded(a[t].1),
        forall|t: int| 0 <= t < b.len() ==> (#[trigger] b[t]).0@.len() < 0x1_0000_0000_0000_0000
            && seq_index_bounded(b[t].1),
        ser_sequences_body(a) + x == ser_sequences_body(b) + y,
    ensures
        forall|i: int| 0 <= i < a.len() ==> (#[trigger] a[i]).0@ == b[i].0@ && seq_index_like(
            a[i].1,
            b[i].1,
        ),
        x == y,
    decreases a.len(),
{
    if a.len() == 0 {
        assert(ser_sequences_body(a) =~= Seq::<u8>::empty());
        assert(ser_sequences_body(b) =~= Seq::<u8>::empty());
        lemma_concat_split(ser_sequences_body(a), x, ser_sequences_body(b), y);
    } else {
        lemma_sequences_body_front(a);
        lemma_sequences_body_front(b);
        // Peel the name length.
        let ra = a[0].0@ + (ser_seq_index(a[0].1) + (ser_sequences_body(a.drop_first()) + x));
        let rb = b[0].0@ + (ser_seq_index(b[0].1) + (ser_sequences_body(b.drop_first()) + y));
        assert(ser_sequences_body(a) + x =~= spec_u64_to_le_bytes(a[0].0@.len() as u64) + ra);
        assert(ser_sequences_body(b) + y =~= spec_u64_to_le_bytes(b[0].0@.len() as u64) + rb);
        lemma_u64_prefix_inj(a[0].0@.len() as u64, b[0].0@.len() as u64, ra, rb);
        assert(a[0].0@.len() == b[0].0@.len());
        // Peel the name bytes.
        lemma_concat_split(
            a[0].0@,
            ser_seq_index(a[0].1) + (ser_sequences_body(a.drop_first()) + x),
            b[0].0@,
            ser_seq_index(b[0].1) + (ser_sequences_body(b.drop_first()) + y),
        );
        // Peel the bin map: its count first.
        let sa = a[0].1;
        let sb = b[0].1;
        let fa = ser_bins_body(sa.bins@) + (ser_linear(sa.linear_index) + (ser_sequences_body(
            a.drop_first(),
        ) + x));
        let fb = ser_bins_body(sb.bins@) + (ser_linear(sb.linear_index) + (ser_sequences_body(
            b.drop_first(),
        ) + y));
        assert(ser_seq_index(sa) + (ser_sequences_body(a.drop_first()) + x)
            =~= spec_u64_to_le_bytes(sa.bins@.len() as u64) + fa);
        assert(ser_seq_index(sb) + (ser_sequences_body(b.drop_first()) + y)
            =~= spec_u64_to_le_bytes(sb.bins@.len() as u64) + fb);
        lemma_u64_prefix_inj(sa.bins@.len() as u64, sb.bins@.len() as u64, fa, fb);
        assert(sa.bins@.len() == sb.bins@.len());
        lemma_bins_body_inj(
            sa.bins@,
            sb.bins@,
            ser_linear(sa.linear_index) + (ser_sequences_body(a.drop_first()) + x),
            ser_linear(sb.linear_index) + (ser_sequences_body(b.drop_first()) + y),
        );
        // Peel the linear index.
        lemma_linear_inj(
            sa.linear_index,
            sb.linear_index,
            ser_sequences_body(a.drop_first()) + x,
            ser_sequences_body(b.drop_first()) + y,
        );
        assert(seq_index_like(sa, sb));
        // The rest of the map.
        assert forall|t: int| 0 <= t < a.drop_first().len() implies (
        #[trigger] a.drop_first()[t]).0@.len() < 0x1_0000_0000_0000_0000 && seq_index_bounded(
            a.drop_first()[t].1,
        ) by {
            assert(a.drop_first()[t] == a[t + 1]);
        }
        assert forall|t: int| 0 <= t < b.drop_first().len() implies (
        #[trigger] b.drop_first()[t]).0@.len() < 0x1_0000_0000_0000_0000 && seq_index_bounded(
            b.drop_first()[t].1,
        ) by {
            assert(b.drop_first()[t] == b[t + 1]);
        }
        lemma_sequences_body_inj(a.drop_first(), b.drop_first(), x, y);
        assert forall|i: int| 0 <= i < a.len() implies (#[trigger] a[i]).0@ == b[i].0@
            && seq_index_like(a[i].1, b[i].1) by {
            if i > 0 {
                assert(a.drop_first()[i - 1].0@ == b.drop_first()[i - 1].0@);
                assert(seq_index_like(a.drop_first()[i - 1].1, b.drop_first()[i - 1].1));
            }
        }
    }
}

/// Serialization is injective up to views: two indexes (with their
/// metadata) that write the same bytes are the same index, sequence by
/// sequence and cell by cell, with the same metadata.  With
/// `deserialize_index`'s re-serialization guarantee, a verified reader
/// of an index file written by `serialize_index` knows the parsed index
/// is the one that was written.
#[verifier::spinoff_prover]
#[verifier::rlimit(100)]
pub proof fn lemma_serialization_injective(
    a: BinningIndex,
    ma: Option<Seq<u8>>,
    b: BinningIndex,
    mb: Option<Seq<u8>>,
)
    requires
        index_bounded(a),
        index_bounded(b),
        ser_index_file(a, ma) == ser_index_file(b, mb),
    ensures
        index_like(a, b),
        ma == mb,
{
    lemma_auto_spec_u32_to_from_le_bytes();
    lemma_auto_spec_u64_to_from_le_bytes();
    let tail_a = seq![0u8] + seq![0u8] + ser_metadata(ma);
    let tail_b = seq![0u8] + seq![0u8] + ser_metadata(mb);
    let ra = spec_u64_to_le_bytes(a.sequences@.len() as u64) + (ser_sequences_body(a.sequences@)
        + tail_a);
    let rb = spec_u64_to_le_bytes(b.sequences@.len() as u64) + (ser_sequences_body(b.sequences@)
        + tail_b);
    assert(ser_index_file(a, ma) =~= spec_u32_to_le_bytes(schema_tag(a.bins.schema)) + ra);
    assert(ser_index_file(b, mb) =~= spec_u32_to_le_bytes(schema_tag(b.bins.schema)) + rb);
    lemma_u32_prefix_inj(schema_tag(a.bins.schema), schema_tag(b.bins.schema), ra, rb);
    assert(a.bins.schema == b.bins.schema);
    lemma_u64_prefix_inj(
        a.sequences@.len() as u64,
        b.sequences@.len() as u64,
        ser_sequences_body(a.sequences@) + tail_a,
        ser_sequences_body(b.sequences@) + tail_b,
    );
    assert(a.sequences@.len() == b.sequences@.len());
    assert(ser_sequences_body(a.sequences@) + tail_a == ser_sequences_body(b.sequences@)
        + tail_b) by {
        assert(ser_sequences_body(a.sequences@) + tail_a =~= (ser_sequences_body(a.sequences@)
            + tail_a));
    }
    lemma_sequences_body_inj(a.sequences@, b.sequences@, tail_a, tail_b);
    // The two absence tags, then the metadata blob.
    assert(ser_metadata(ma) =~= tail_a.subrange(2, tail_a.len() as int));
    assert(ser_metadata(mb) =~= tail_b.subrange(2, tail_b.len() as int));
    assert(ser_metadata(ma) == ser_metadata(mb));
    match (ma, mb) {
        (None, None) => {},
        (Some(ba), Some(bb)) => {
            assert(ser_metadata(ma)[0] == 1u8 && ser_metadata(mb)[0] == 1u8);
            assert(ser_metadata(ma).len() == 9 + ba.len());
            assert(ser_metadata(mb).len() == 9 + bb.len());
            assert(ba.len() == bb.len());
            assert(ba =~= ser_metadata(ma).subrange(9, ser_metadata(ma).len() as int));
            assert(bb =~= ser_metadata(mb).subrange(9, ser_metadata(mb).len() as int));
            assert(ba == bb);
        },
        (None, Some(bb)) => {
            assert(ser_metadata(ma)[0] == 0u8);
            assert(ser_metadata(mb)[0] == 1u8);
        },
        (Some(ba), None) => {
            assert(ser_metadata(ma)[0] == 1u8);
            assert(ser_metadata(mb)[0] == 0u8);
        },
    }
}

} // verus!
