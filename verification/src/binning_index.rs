//! The per-sequence and whole-dataset index structures: bins mapping bin
//! ids to feature entries, the optional linear acceleration array, and the
//! sequence-name container with its sorted-append session state.

use vstd::prelude::*;
use crate::binning::{BinningSchema, HierarchicalBins};
use crate::HgIndexError;
use vstd::bits::lemma_u32_shr_is_div;
use vstd::arithmetic::power2::{pow2, lemma_pow2_pos};
use vstd::arithmetic::div_mod::lemma_div_is_ordered;
use vstd::string::StringSliceAdditionalSpecFns;

verus! {

/// One indexed record range: its coordinates, the byte offset of its
/// frame in the sequence's data file, and its payload byte count.
#[derive(Clone, Copy, Debug, PartialEq, Eq, Structural)]
pub struct Feature {
    /// Start position.
    pub start: u32,
    /// End position.
    pub end: u32,
    /// The feature index (a byte offset into the sequence's data file).
    pub index: u64,
    /// The length of the payload in bytes.
    pub length: u64,
}

/// Whether some stored feature's range touches window `w` of the
/// linear index.
pub open spec fn window_touched(seq: &SequenceIndex, li: LinearIndex, w: int) -> bool {
    exists|t: int, i: int|
        #![trigger seq.bins@[t].1@[i]]
        0 <= t < seq.bins@.len() && 0 <= i < seq.bins@[t].1@.len() && li.window_of(
            seq.bins@[t].1@[i].start,
        ) <= w <= li.window_of((seq.bins@[t].1@[i].end - 1) as u32)
}

/// A stored feature is sound for its bin: a nonempty interval below the
/// scheme's ceiling, filed under the bin id the scheme assigns it, and
/// starting no later than the recorded last start.
pub open spec fn feature_ok(
    f: Feature,
    key: u32,
    last: Option<u32>,
    hb: &HierarchicalBins,
) -> bool {
    &&& f.start < f.end
    &&& ((f.end - 1) as u32 as nat) < hb.coord_ceiling()
    &&& hb.spec_region_to_bin(f.start, f.end) == key as nat
    &&& last matches Some(ls) && f.start <= ls
}

/// The smaller of two offsets.
pub open spec fn min_u64(a: u64, b: u64) -> u64 {
    if a <= b {
        a
    } else {
        b
    }
}

/// How one `LinearIndex::update` for the range `[start, end)` at
/// `offset` turns `li0` into `li1`: the array reaches the range's last
/// window, cells the range touches take the smaller of their old bound
/// and `offset`, and every other cell keeps its value (`u64::MAX` for
/// cells the growth created).
pub open spec fn linear_updated(
    li0: LinearIndex,
    li1: LinearIndex,
    start: u32,
    end: u32,
    offset: u64,
) -> bool {
    &&& li1.spec_shift() == li0.spec_shift()
    &&& li1.spec_entries().len() == if li0.spec_entries().len() > li0.window_of(
        (end - 1) as u32,
    ) + 1 {
        li0.spec_entries().len() as int
    } else {
        li0.window_of((end - 1) as u32) + 1
    }
    &&& (forall|w: int|
        0 <= w < li1.spec_entries().len() ==> li1.spec_entries()[w] == ({
            let base = if w < li0.spec_entries().len() {
                li0.spec_entries()[w]
            } else {
                u64::MAX
            };
            if li0.window_of(start) <= w <= li0.window_of((end - 1) as u32) {
                min_u64(base, offset)
            } else {
                base
            }
        }))
}

/// How a sequence's first update shapes a fresh linear index with window
/// shift `shift`: cells the range touches hold `offset`, the rest the
/// neutral `u64::MAX`.
pub open spec fn linear_fresh_updated(
    shift: u32,
    li1: LinearIndex,
    start: u32,
    end: u32,
    offset: u64,
) -> bool {
    &&& li1.spec_shift() == shift
    &&& li1.spec_entries().len() == li1.window_of((end - 1) as u32) + 1
    &&& (forall|w: int|
        0 <= w < li1.spec_entries().len() ==> li1.spec_entries()[w] == (if li1.window_of(start)
            <= w <= li1.window_of((end - 1) as u32) {
            offset
        } else {
            u64::MAX
        }))
}

/// How adding one feature relates the optional linear indexes before
/// and after.
pub open spec fn linear_opt_updated(
    li0: Option<LinearIndex>,
    li1: Option<LinearIndex>,
    start: u32,
    end: u32,
    offset: u64,
) -> bool {
    match (li0, li1) {
        (Some(a), Some(b)) => linear_updated(a, b, start, end, offset),
        (None, None) => true,
        _ => false,
    }
}

/// The linear acceleration array: for each fixed-width coordinate window,
/// a lower bound on the data-file offset of every feature whose range
/// touches the window.
#[derive(Clone, Debug, PartialEq)]
pub struct LinearIndex {
    entries: Vec<u64>,
    shift: u32,
}

impl LinearIndex {
    /// The window array.
    pub closed spec fn spec_entries(&self) -> Seq<u64> {
        self.entries@
    }

    /// Log2 of the window width.
    pub closed spec fn spec_shift(&self) -> u32 {
        self.shift
    }

    /// The window a coordinate falls into.
    pub open spec fn window_of(&self, x: u32) -> int {
        (x as int) / (pow2(self.spec_shift() as nat) as int)
    }

    /// The shift stays a valid `u32` shift amount.
    pub open spec fn wf(&self) -> bool {
        1 <= self.spec_shift() < 32
    }

    /// Create a new `LinearIndex` for a schema, or `None` if the schema
    /// does not use one.
    pub fn from_schema(bins: &HierarchicalBins) -> (r: Option<Self>)
        requires
            bins.wf(),
        ensures
            match r {
                Some(li) => {
                    &&& bins.linear_shift == Some(li.spec_shift())
                    &&& li.spec_entries().len() == 0
                    &&& li.wf()
                },
                None => bins.linear_shift.is_none(),
            },
    {
        match bins.linear_shift {
            Some(shift) => Some(LinearIndex { entries: Vec::new(), shift }),
            None => None,
        }
    }

    /// Grow the window array to at least `required_size` cells; new cells
    /// hold `u64::MAX`, the neutral lower bound.
    pub fn resize(&mut self, required_size: usize)
        ensures
            final(self).spec_shift() == old(self).spec_shift(),
            final(self).spec_entries().len() >= required_size,
            final(self).spec_entries().len() >= old(self).spec_entries().len(),
            forall|w: int| 0 <= w < old(self).spec_entries().len()
                ==> final(self).spec_entries()[w] == old(self).spec_entries()[w],
            forall|w: int| old(self).spec_entries().len() <= w < final(self).spec_entries().len()
                ==> final(self).spec_entries()[w] == u64::MAX,
            old(self).spec_entries().len() >= required_size
                ==> final(self).spec_entries() == old(self).spec_entries(),
            final(self).spec_entries().len() == if old(self).spec_entries().len() >= required_size {
                old(self).spec_entries().len() as int
            } else {
                required_size as int
            },
    {
        if self.entries.len() < required_size {
            self.entries.resize(required_size, u64::MAX);
        }
    }

    /// Record `offset` as a candidate lower bound for every window that
    /// the range `[start, end)` touches.
    pub fn update(&mut self, start: u32, end: u32, offset: u64)
        requires
            old(self).wf(),
            start < end,
        ensures
            final(self).wf(),
            final(self).spec_shift() == old(self).spec_shift(),
            final(self).spec_entries().len() == if old(self).spec_entries().len() > old(self).window_of((end - 1) as u32) + 1 {
                old(self).spec_entries().len() as int
            } else {
                old(self).window_of((end - 1) as u32) + 1
            },
            forall|w: int| 0 <= w < final(self).spec_entries().len()
                ==> final(self).spec_entries()[w] == ({
                    let base = if w < old(self).spec_entries().len() {
                        old(self).spec_entries()[w]
                    } else {
                        u64::MAX
                    };
                    if old(self).window_of(start) <= w <= old(self).window_of((end - 1) as u32) {
                        min_u64(base, offset)
                    } else {
                        base
                    }
                }),
    {
        let start_window: u32 = start >> self.shift;
        let end_window: u32 = (end - 1) >> self.shift;
        proof {
            lemma_u32_shr_is_div(start, self.shift);
            lemma_u32_shr_is_div((end - 1) as u32, self.shift);
            lemma_pow2_pos(self.spec_shift() as nat);
            lemma_div_is_ordered(start as int, (end - 1) as int, pow2(self.spec_shift() as nat) as int);
            // shift >= 1 keeps the window count well under usize range.
            assert(pow2(1) == 2) by { vstd::arithmetic::power2::lemma2_to64(); };
            vstd::arithmetic::power2::lemma_pow2_strictly_increases(0, self.spec_shift() as nat);
            if self.spec_shift() > 1 {
                vstd::arithmetic::power2::lemma_pow2_strictly_increases(1, self.spec_shift() as nat);
            }
            lemma_div_is_ordered_by_den(end as int - 1, 2, pow2(self.spec_shift() as nat) as int);
        }
        self.resize((end_window as usize) + 1);
        let ghost mid = self@;
        let mut w: u32 = start_window;
        while w <= end_window
            invariant
                start_window <= w <= end_window + 1,
                end_window < u32::MAX,
                self.spec_shift() == mid.1,
                self.entries@.len() == mid.0.len(),
                (end_window + 1) as int <= mid.0.len(),
                forall|t: int| 0 <= t < mid.0.len() && !(start_window <= t < w)
                    ==> self.entries@[t] == mid.0[t],
                forall|t: int| start_window <= t < w
                    ==> self.entries@[t] == min_u64(mid.0[t], offset),
            decreases end_window + 1 - w,
        {
            let cur = self.entries[w as usize];
            if offset < cur {
                self.entries.set(w as usize, offset);
            }
            w = w + 1;
        }
        proof {
            assert(start_window as int == old(self).window_of(start));
            assert(end_window as int == old(self).window_of((end - 1) as u32));
            assert forall|t: int| 0 <= t < self.spec_entries().len() implies self.spec_entries()[t] == ({
                let base = if t < old(self).spec_entries().len() {
                    old(self).spec_entries()[t]
                } else {
                    u64::MAX
                };
                if old(self).window_of(start) <= t <= old(self).window_of((end - 1) as u32) {
                    min_u64(base, offset)
                } else {
                    base
                }
            }) by {
                if start_window <= t <= end_window {
                    assert(self.entries@[t] == min_u64(mid.0[t], offset));
                } else {
                    assert(self.entries@[t] == mid.0[t]);
                }
            }
        }
    }

    /// The recorded lower bound for the window holding `start`, or `None`
    /// if the array does not reach that window.
    pub fn get_min_offset(&self, start: u32) -> (r: Option<u64>)
        requires
            self.wf(),
        ensures
            r == if self.window_of(start) < self.spec_entries().len() {
                Some(self.spec_entries()[self.window_of(start)])
            } else {
                None::<u64>
            },
    {
        proof {
            lemma_u32_shr_is_div(start, self.shift);
        }
        let window = (start >> self.shift) as usize;
        if window < self.entries.len() {
            Some(self.entries[window])
        } else {
            None
        }
    }

    /// Number of windows the array currently covers.
    pub fn len(&self) -> (r: usize)
        ensures
            r == self.spec_entries().len(),
    {
        self.entries.len()
    }

    /// The window array itself.
    pub fn entries_vec(&self) -> (r: &Vec<u64>)
        ensures
            r@ == self.spec_entries(),
    {
        &self.entries
    }

    /// The window shift.
    pub fn shift_value(&self) -> (r: u32)
        ensures
            r == self.spec_shift(),
    {
        self.shift
    }

    /// Rebuild a linear index from its persisted parts.
    pub fn from_parts(entries: Vec<u64>, shift: u32) -> (r: Self)
        requires
            1 <= shift < 32,
        ensures
            r.spec_entries() == entries@,
            r.spec_shift() == shift,
            r.wf(),
    {
        LinearIndex { entries, shift }
    }
}

impl View for LinearIndex {
    type V = (Seq<u64>, u32);

    open spec fn view(&self) -> (Seq<u64>, u32) {
        (self.spec_entries(), self.spec_shift())
    }
}

/// Division by a bigger positive divisor gives a quotient no bigger.
proof fn lemma_div_is_ordered_by_den(x: int, d1: int, d2: int)
    requires
        0 <= x,
        1 <= d1 <= d2,
    ensures
        x / d2 <= x / d1,
{
    vstd::arithmetic::div_mod::lemma_div_is_ordered_by_denominator(x, d1, d2);
}



/// The feature list stored under `key`, or the empty sequence: bins are an
/// association list with distinct keys.
pub open spec fn assoc_lookup(bins: Seq<(u32, Vec<Feature>)>, key: u32) -> Seq<Feature>
    decreases bins.len(),
{
    if bins.len() == 0 {
        Seq::empty()
    } else if bins[0].0 == key {
        bins[0].1@
    } else {
        assoc_lookup(bins.drop_first(), key)
    }
}

/// Whether some bin entry carries `key`.
pub open spec fn assoc_contains(bins: Seq<(u32, Vec<Feature>)>, key: u32) -> bool
    decreases bins.len(),
{
    bins.len() > 0 && (bins[0].0 == key || assoc_contains(bins.drop_first(), key))
}

/// Whether a feature passes the query filter: its offset clears the lower
/// bound and its range overlaps the half-open query `[q0, q1)`.
pub open spec fn feature_matches(f: Feature, q0: u32, q1: u32, min_off: u64) -> bool {
    f.index >= min_off && f.start < q1 && f.end > q0
}

/// The `(offset, length)` pairs of the features in `fs` that pass the
/// filter, in order.
pub open spec fn matches_of(fs: Seq<Feature>, q0: u32, q1: u32, min_off: u64) -> Seq<(u64, u64)>
    decreases fs.len(),
{
    if fs.len() == 0 {
        Seq::empty()
    } else {
        matches_of(fs.drop_last(), q0, q1, min_off) + (if feature_matches(fs.last(), q0, q1, min_off) {
            seq![(fs.last().index, fs.last().length)]
        } else {
            Seq::empty()
        })
    }
}

/// The filtered pairs collected over a list of candidate bin ids, in
/// candidate order, each bin's features in stored order.
pub open spec fn matches_in_bins(
    bins: Seq<(u32, Vec<Feature>)>,
    ids: Seq<u32>,
    q0: u32,
    q1: u32,
    min_off: u64,
) -> Seq<(u64, u64)>
    decreases ids.len(),
{
    if ids.len() == 0 {
        Seq::empty()
    } else {
        matches_in_bins(bins, ids.drop_last(), q0, q1, min_off) + matches_of(
            assoc_lookup(bins, ids.last()),
            q0,
            q1,
            min_off,
        )
    }
}

/// The query end clamped to the binning scheme's coordinate ceiling.
pub open spec fn clamped_end(hb: &HierarchicalBins, q1: u32) -> u32 {
    if (q1 as nat) > hb.coord_ceiling() {
        hb.coord_ceiling() as u32
    } else {
        q1
    }
}

/// The per-sequence index: feature entries grouped by bin id, plus the
/// optional linear acceleration array and the sorted-append state.
#[derive(Clone, Debug, PartialEq)]
pub struct SequenceIndex {
    /// Feature entries keyed by bin id; keys are distinct.
    pub bins: Vec<(u32, Vec<Feature>)>,
    /// Optional linear index for quick region queries.
    pub linear_index: Option<LinearIndex>,
    /// The start of the most recently added feature.
    pub last_start: Option<u32>,
}

impl SequenceIndex {
    /// The start position of the feature added last, if any.
    pub open spec fn spec_last_start(&self) -> Option<u32> {
        self.last_start
    }

    /// The linear index, if present, must carry a valid shift.
    pub open spec fn linear_wf(&self) -> bool {
        self.linear_index matches Some(li) ==> li.wf()
    }

    /// The offset lower bound the linear index yields for a query starting
    /// at `q0`; `0` when there is no linear index, no covering window, or
    /// the window still holds the neutral `u64::MAX`, which marks a window
    /// no feature has touched and so imposes no bound.
    pub open spec fn spec_min_offset(&self, q0: u32) -> u64 {
        match self.linear_index {
            None => 0,
            Some(li) => if li.window_of(q0) < li.spec_entries().len() {
                if li.spec_entries()[li.window_of(q0)] == u64::MAX {
                    0
                } else {
                    li.spec_entries()[li.window_of(q0)]
                }
            } else {
                0
            },
        }
    }

    /// What a query `[q0, q1)` returns: for each candidate bin of the
    /// clamped query range, the stored entries that pass the filter.
    pub open spec fn spec_find(&self, hb: &HierarchicalBins, q0: u32, q1: u32) -> Seq<(u64, u64)> {
        if (q0 as nat) >= hb.coord_ceiling() {
            Seq::empty()
        } else {
            matches_in_bins(
                self.bins@,
                hb.spec_region_to_bins(q0, clamped_end(hb, q1)),
                q0,
                q1,
                self.spec_min_offset(q0),
            )
        }
    }

    /// Create an empty `SequenceIndex` shaped by the schema.
    pub fn new(bins: &HierarchicalBins) -> (r: Self)
        requires
            bins.wf(),
        ensures
            r.bins@.len() == 0,
            r.spec_last_start().is_none(),
            r.linear_wf(),
            r.linear_index.is_some() == bins.linear_shift.is_some(),
            r.linear_index matches Some(li) ==> {
                &&& bins.linear_shift == Some(li.spec_shift())
                &&& li.spec_entries().len() == 0
            },
    {
        let linear_index = LinearIndex::from_schema(bins);
        SequenceIndex { bins: Vec::new(), linear_index, last_start: None }
    }

    /// The stored feature list of one bin, if that bin has received any.
    fn get_bin<'a>(&'a self, bin_id: u32) -> (r: Option<&'a Vec<Feature>>)
        ensures
            match r {
                Some(v) => assoc_contains(self.bins@, bin_id) && v@ == assoc_lookup(
                    self.bins@,
                    bin_id,
                ),
                None => !assoc_contains(self.bins@, bin_id),
            },
    {
        let n = self.bins.len();
        let mut t: usize = 0;
        while t < n
            invariant
                t <= n,
                n == self.bins@.len(),
                forall|u: int| 0 <= u < t ==> (#[trigger] self.bins@[u]).0 != bin_id,
            decreases n - t,
        {
            let entry = &self.bins[t];
            if entry.0 == bin_id {
                proof {
                    lemma_assoc_lookup_at(self.bins@, bin_id, t as int);
                }
                return Some(&entry.1);
            }
            t = t + 1;
        }
        proof {
            lemma_assoc_absent(self.bins@, bin_id);
        }
        None
    }

    /// Return the `(offset, length)` of every stored feature that overlaps
    /// `[start, end)` and clears the linear index's offset lower bound.
    pub fn find_overlapping(&self, bins: &HierarchicalBins, start: u32, end: u32) -> (r: Vec<
        (u64, u64),
    >)
        requires
            bins.wf(),
            start < end,
            self.linear_wf(),
        ensures
            r@ == self.spec_find(bins, start, end),
    {
        let min_offset: u64 = match &self.linear_index {
            Some(li) => match li.get_min_offset(start) {
                // The neutral cell value marks an untouched window; it
                // imposes no bound.
                Some(m) => if m == u64::MAX {
                    0
                } else {
                    m
                },
                None => 0,
            },
            None => 0,
        };
        proof {
            assert(min_offset == self.spec_min_offset(start));
        }
        // Clamp the query to the scheme's coordinate ceiling; coordinates
        // past it can hold no feature.
        proof {
            assert(bins.num_levels <= 32 && (bins.level_shift as int) * ((bins.num_levels - 1) as int) < 32) by (nonlinear_arith)
                requires
                    ((bins.num_levels - 1) as int) * (bins.level_shift as int) < 32,
                    1 <= bins.level_shift,
                    1 <= bins.num_levels,
            ;
        }
        let nl_minus_1: u32 = (bins.num_levels as u32) - 1;
        let ceil_shift: u32 = bins.base_shift + bins.level_shift * nl_minus_1;
        proof {
            assert(ceil_shift as nat == bins.shift_at(bins.num_levels - 1)) by (nonlinear_arith)
                requires
                    bins.wf(),
                    nl_minus_1 == bins.num_levels - 1,
                    ceil_shift == bins.base_shift + bins.level_shift * nl_minus_1,
                    bins.shift_at(bins.num_levels - 1) == bins.base_shift as nat
                        + bins.level_shift as nat * (bins.num_levels - 1) as nat,
            ;
        }
        let query_end: u32;
        if ceil_shift < 32 {
            proof {
                crate::binning::lemma_pow2_le_max32(ceil_shift as nat);
                vstd::bits::lemma_u32_shl_is_mul(1u32, ceil_shift);
            }
            let ceil: u32 = 1u32 << ceil_shift;
            if start >= ceil {
                proof {
                    assert(self.spec_find(bins, start, end) =~= Seq::<(u64, u64)>::empty());
                }
                return Vec::new();
            }
            query_end = if end > ceil {
                ceil
            } else {
                end
            };
        } else {
            proof {
                vstd::arithmetic::power2::lemma2_to64();
                vstd::arithmetic::power2::lemma2_to64_rest();
                if ceil_shift > 32 {
                    vstd::arithmetic::power2::lemma_pow2_strictly_increases(
                        32,
                        ceil_shift as nat,
                    );
                }
            }
            query_end = end;
        }
        assert(query_end == clamped_end(bins, end));
        assert(start < query_end);
        assert(((query_end - 1) as u32 as nat) < bins.coord_ceiling());
        let candidates = bins.region_to_bins(start, query_end);
        let ghost ids = candidates@;
        let ncand = candidates.len();
        let mut results: Vec<(u64, u64)> = Vec::new();
        let mut i: usize = 0;
        while i < ncand
            invariant
                i <= ncand,
                ncand == ids.len(),
                candidates@ == ids,
                self.linear_wf(),
                results@ == matches_in_bins(self.bins@, ids.take(i as int), start, end, min_offset),
            decreases ncand - i,
        {
            let bin_id = candidates[i];
            let ghost results_prev = results@;
            match self.get_bin(bin_id) {
                Some(features) => {
                    let nf = features.len();
                    let mut u: usize = 0;
                    while u < nf
                        invariant
                            u <= nf,
                            nf == features@.len(),
                            features@ == assoc_lookup(self.bins@, bin_id),
                            results@ == results_prev + matches_of(
                                features@.take(u as int),
                                start,
                                end,
                                min_offset,
                            ),
                        decreases nf - u,
                    {
                        let f = features[u];
                        proof {
                            assert(features@.take(u as int + 1).drop_last() =~= features@.take(
                                u as int,
                            ));
                        }
                        if f.index >= min_offset && f.start < end && f.end > start {
                            results.push((f.index, f.length));
                        }
                        u = u + 1;
                    }
                    proof {
                        assert(features@.take(nf as int) =~= features@);
                    }
                },
                None => {
                    proof {
                        lemma_matches_of_absent(self.bins@, bin_id, start, end, min_offset);
                        assert(results@ =~= results_prev + matches_of(
                            assoc_lookup(self.bins@, bin_id),
                            start,
                            end,
                            min_offset,
                        ));
                    }
                },
            }
            proof {
                assert(ids.take(i as int + 1).drop_last() =~= ids.take(i as int));
                assert(ids.take(i as int + 1).last() == ids[i as int]);
            }
            i = i + 1;
        }
        proof {
            assert(ids.take(ncand as int) =~= ids);
        }
        results
    }
}

/// Looking up a key held at position `t`, with no earlier occurrence,
/// yields exactly that entry's features.
proof fn lemma_assoc_lookup_at(bins: Seq<(u32, Vec<Feature>)>, key: u32, t: int)
    requires
        0 <= t < bins.len(),
        bins[t].0 == key,
        forall|u: int| 0 <= u < t ==> (#[trigger] bins[u]).0 != key,
    ensures
        assoc_contains(bins, key),
        assoc_lookup(bins, key) == bins[t].1@,
    decreases t,
{
    if t > 0 {
        lemma_assoc_lookup_at(bins.drop_first(), key, t - 1);
    }
}

/// Looking up a key that no entry holds yields the empty list.
proof fn lemma_assoc_absent(bins: Seq<(u32, Vec<Feature>)>, key: u32)
    requires
        forall|u: int| 0 <= u < bins.len() ==> (#[trigger] bins[u]).0 != key,
    ensures
        !assoc_contains(bins, key),
        assoc_lookup(bins, key) == Seq::<Feature>::empty(),
    decreases bins.len(),
{
    if bins.len() > 0 {
        lemma_assoc_absent(bins.drop_first(), key);
    }
}

/// A bin no entry holds contributes no matches.
proof fn lemma_matches_of_absent(
    bins: Seq<(u32, Vec<Feature>)>,
    key: u32,
    q0: u32,
    q1: u32,
    min_off: u64,
)
    requires
        !assoc_contains(bins, key),
    ensures
        matches_of(assoc_lookup(bins, key), q0, q1, min_off) == Seq::<(u64, u64)>::empty(),
    decreases bins.len(),
{
    if bins.len() > 0 {
        lemma_matches_of_absent(bins.drop_first(), key, q0, q1, min_off);
    }
}



/// Appending a feature to the entry at `pos` (the first entry holding
/// `key`) extends that key's lookup and leaves every other key alone.
proof fn lemma_assoc_after_update(
    olds: Seq<(u32, Vec<Feature>)>,
    news: Seq<(u32, Vec<Feature>)>,
    pos: int,
    key: u32,
    f: Feature,
)
    requires
        0 <= pos < olds.len(),
        news.len() == olds.len(),
        olds[pos].0 == key,
        news[pos].0 == key,
        news[pos].1@ == olds[pos].1@.push(f),
        forall|u: int| 0 <= u < pos ==> (#[trigger] olds[u]).0 != key,
        forall|u: int| 0 <= u < olds.len() && u != pos ==> (#[trigger] news[u]) == olds[u],
    ensures
        assoc_contains(news, key),
        assoc_lookup(news, key) == assoc_lookup(olds, key).push(f),
        forall|k2: u32| k2 != key ==> assoc_lookup(news, k2) == assoc_lookup(olds, k2),
        forall|k2: u32| k2 != key ==> (assoc_contains(news, k2) <==> assoc_contains(olds, k2)),
    decreases pos,
{
    if pos == 0 {
        assert(news.drop_first() =~= olds.drop_first());
        assert forall|k2: u32| k2 != key implies assoc_lookup(news, k2) == assoc_lookup(olds, k2)
            && (assoc_contains(news, k2) <==> assoc_contains(olds, k2)) by {
            assert(assoc_lookup(news, k2) == assoc_lookup(news.drop_first(), k2));
            assert(assoc_lookup(olds, k2) == assoc_lookup(olds.drop_first(), k2));
            assert(assoc_contains(news, k2) == assoc_contains(news.drop_first(), k2));
            assert(assoc_contains(olds, k2) == assoc_contains(olds.drop_first(), k2));
        }
    } else {
        assert(news.drop_first().len() == olds.drop_first().len());
        assert(olds.drop_first()[pos - 1].0 == key);
        assert(news.drop_first()[pos - 1].0 == key);
        assert(news.drop_first()[pos - 1].1@ == olds.drop_first()[pos - 1].1@.push(f));
        assert forall|u: int| 0 <= u < pos - 1 implies (#[trigger] olds.drop_first()[u]).0 != key by {
            assert(olds.drop_first()[u] == olds[u + 1]);
        }
        assert forall|u: int| 0 <= u < olds.drop_first().len() && u != pos - 1 implies (
        #[trigger] news.drop_first()[u]) == olds.drop_first()[u] by {
            assert(news.drop_first()[u] == news[u + 1]);
            assert(olds.drop_first()[u] == olds[u + 1]);
        }
        lemma_assoc_after_update(olds.drop_first(), news.drop_first(), pos - 1, key, f);
        assert(news[0] == olds[0]);
        assert(olds[0].0 != key);
        assert forall|k2: u32| k2 != key implies assoc_lookup(news, k2) == assoc_lookup(olds, k2)
            && (assoc_contains(news, k2) <==> assoc_contains(olds, k2)) by {
            if olds[0].0 != k2 {
                assert(assoc_lookup(news, k2) == assoc_lookup(news.drop_first(), k2));
                assert(assoc_lookup(olds, k2) == assoc_lookup(olds.drop_first(), k2));
                assert(assoc_contains(news, k2) == assoc_contains(news.drop_first(), k2));
                assert(assoc_contains(olds, k2) == assoc_contains(olds.drop_first(), k2));
            } else {
                assert(assoc_lookup(news, k2) == news[0].1@);
                assert(assoc_lookup(olds, k2) == olds[0].1@);
                assert(assoc_contains(news, k2));
                assert(assoc_contains(olds, k2));
            }
        }
    }
}

/// Appending a fresh key's entry leaves every other key's lookup alone
/// and gives the fresh key its new list.
proof fn lemma_assoc_after_push(olds: Seq<(u32, Vec<Feature>)>, elt: (u32, Vec<Feature>))
    requires
        forall|u: int| 0 <= u < olds.len() ==> (#[trigger] olds[u]).0 != elt.0,
    ensures
        assoc_contains(olds.push(elt), elt.0),
        assoc_lookup(olds.push(elt), elt.0) == elt.1@,
        forall|k2: u32| k2 != elt.0 ==> assoc_lookup(olds.push(elt), k2) == assoc_lookup(olds, k2),
        forall|k2: u32| k2 != elt.0 ==> (assoc_contains(olds.push(elt), k2) <==> assoc_contains(
            olds,
            k2,
        )),
    decreases olds.len(),
{
    let news = olds.push(elt);
    if olds.len() == 0 {
        assert(news[0] == elt);
        assert(news.drop_first() =~= Seq::<(u32, Vec<Feature>)>::empty());
        assert forall|k2: u32| k2 != elt.0 implies assoc_lookup(news, k2) == assoc_lookup(olds, k2)
            && (assoc_contains(news, k2) <==> assoc_contains(olds, k2)) by {
            assert(assoc_lookup(news, k2) == assoc_lookup(news.drop_first(), k2));
            assert(assoc_lookup(news.drop_first(), k2) == Seq::<Feature>::empty());
            assert(assoc_lookup(olds, k2) == Seq::<Feature>::empty());
            assert(!assoc_contains(news.drop_first(), k2));
            assert(!assoc_contains(news, k2));
            assert(!assoc_contains(olds, k2));
        }
    } else {
        assert forall|u: int| 0 <= u < olds.drop_first().len() implies (#[trigger] olds.drop_first()[u]).0 != elt.0 by {
            assert(olds.drop_first()[u] == olds[u + 1]);
        }
        lemma_assoc_after_push(olds.drop_first(), elt);
        assert(news.drop_first() =~= olds.drop_first().push(elt));
        assert(news[0] == olds[0]);
        assert(olds[0].0 != elt.0);
        assert(assoc_lookup(news, elt.0) == assoc_lookup(olds.drop_first().push(elt), elt.0));
        assert forall|k2: u32| k2 != elt.0 implies assoc_lookup(news, k2) == assoc_lookup(olds, k2)
            && (assoc_contains(news, k2) <==> assoc_contains(olds, k2)) by {
            if olds[0].0 != k2 {
                assert(assoc_lookup(news, k2) == assoc_lookup(news.drop_first(), k2));
                assert(assoc_lookup(news.drop_first(), k2) == assoc_lookup(olds.drop_first().push(elt), k2));
                assert(assoc_lookup(olds, k2) == assoc_lookup(olds.drop_first(), k2));
                assert(assoc_contains(news, k2) == assoc_contains(news.drop_first(), k2));
                assert(assoc_contains(olds, k2) == assoc_contains(olds.drop_first(), k2));
            } else {
                assert(assoc_lookup(news, k2) == news[0].1@);
                assert(news[0] == olds[0]);
                assert(assoc_lookup(olds, k2) == olds[0].1@);
                assert(assoc_contains(news, k2));
                assert(assoc_contains(olds, k2));
            }
        }
    }
}

impl SequenceIndex {
    /// The inductive well-formedness of a per-sequence index under a
    /// binning scheme: bin keys are distinct; every stored feature is a
    /// nonempty in-range interval filed under the bin that
    /// `region_to_bin` assigns it, starting no later than the recorded
    /// last start; and the linear index, when present, reaches past every
    /// feature's last window and undercuts every feature's offset on
    /// every window the feature touches.
    pub open spec fn wf(&self, hb: &HierarchicalBins) -> bool {
        &&& self.wf_keys()
        &&& self.wf_features(hb)
        &&& self.wf_linear_bounds()
    }

    /// Bin keys are pairwise distinct.
    pub open spec fn wf_keys(&self) -> bool {
        forall|t1: int, t2: int|
            0 <= t1 < t2 < self.bins@.len() ==> (#[trigger] self.bins@[t1]).0 != (
            #[trigger] self.bins@[t2]).0
    }

    /// Every stored feature is a nonempty in-range interval filed under
    /// the bin the scheme assigns it, and none starts after the recorded
    /// last start.
    pub open spec fn wf_features(&self, hb: &HierarchicalBins) -> bool {
        forall|t: int, i: int|
            #![trigger self.bins@[t].1@[i]]
            0 <= t < self.bins@.len() && 0 <= i < self.bins@[t].1@.len() ==> feature_ok(
                self.bins@[t].1@[i],
                self.bins@[t].0,
                self.spec_last_start(),
                hb,
            )
    }

    /// The linear index, when present, reaches past every feature's last
    /// window; it undercuts every feature's offset on every window the
    /// feature touches; and every cell below the neutral `u64::MAX` was
    /// put there by some feature touching its window.
    pub open spec fn wf_linear_bounds(&self) -> bool {
        self.linear_index matches Some(li) ==> {
            &&& li.wf()
            &&& (forall|t: int, i: int|
                #![trigger self.bins@[t].1@[i]]
                0 <= t < self.bins@.len() && 0 <= i < self.bins@[t].1@.len() ==> li.window_of(
                    (self.bins@[t].1@[i].end - 1) as u32,
                ) < li.spec_entries().len())
            &&& (forall|t: int, i: int, w: int|
                #![trigger self.bins@[t].1@[i], li.spec_entries()[w]]
                0 <= t < self.bins@.len() && 0 <= i < self.bins@[t].1@.len() && li.window_of(
                    self.bins@[t].1@[i].start,
                ) <= w <= li.window_of((self.bins@[t].1@[i].end - 1) as u32)
                    ==> li.spec_entries()[w] <= self.bins@[t].1@[i].index)
            &&& (forall|w: int|
                0 <= w < li.spec_entries().len() && #[trigger] li.spec_entries()[w] != u64::MAX
                    ==> window_touched(self, li, w))
        }
    }

    /// Position of the entry holding `bin_id`, or the length if none does.
    fn find_bin_pos(&self, bin_id: u32) -> (r: usize)
        ensures
            r <= self.bins@.len(),
            r < self.bins@.len() ==> (self.bins@[r as int].0 == bin_id && (forall|u: int|
                0 <= u < r ==> (#[trigger] self.bins@[u]).0 != bin_id)),
            r == self.bins@.len() ==> (forall|u: int|
                0 <= u < self.bins@.len() ==> (#[trigger] self.bins@[u]).0 != bin_id),
    {
        let n = self.bins.len();
        let mut t: usize = 0;
        while t < n
            invariant
                t <= n,
                n == self.bins@.len(),
                forall|u: int| 0 <= u < t ==> (#[trigger] self.bins@[u]).0 != bin_id,
            decreases n - t,
        {
            if self.bins[t].0 == bin_id {
                return t;
            }
            t = t + 1;
        }
        n
    }

    /// Add a feature: enforce the sorted-append order, file the entry
    /// under the bin `region_to_bin` assigns it, and refresh the linear
    /// index over every window the feature touches.
    pub fn add_feature(
        &mut self,
        start: u32,
        end: u32,
        index: u64,
        bins: &HierarchicalBins,
        length: u64,
    ) -> (r: Result<(), HgIndexError>)
        requires
            old(self).wf(bins),
            bins.wf(),
            start < end,
            ((end - 1) as u32 as nat) < bins.coord_ceiling(),
        ensures
            final(self).wf(bins),
            match r {
                Result::Err(e) => {
                    &&& *final(self) == *old(self)
                    &&& old(self).spec_last_start() matches Some(prev) && start < prev
                    &&& (e matches HgIndexError::UnsortedFeatures {
                        chrom,
                        bin_id,
                        previous,
                        current,
                    } && chrom@ == Seq::<u8>::empty() && bin_id == 0 && Some(previous) == old(
                        self,
                    ).spec_last_start() && current == start)
                },
                Result::Ok(_) => {
                    &&& (old(self).spec_last_start() matches Some(prev) ==> start >= prev)
                    &&& final(self).spec_last_start() == Some(start)
                    &&& ({
                        let bid = bins.spec_region_to_bin(start, end) as u32;
                        let f = Feature { start, end, index, length };
                        &&& assoc_lookup(final(self).bins@, bid) == assoc_lookup(
                            old(self).bins@,
                            bid,
                        ).push(f)
                        &&& (forall|b2: u32|
                            b2 != bid ==> assoc_lookup(final(self).bins@, b2) == assoc_lookup(
                                old(self).bins@,
                                b2,
                            ))
                        &&& (forall|b2: u32|
                            assoc_contains(final(self).bins@, b2) <==> (assoc_contains(
                                old(self).bins@,
                                b2,
                            ) || b2 == bid))
                    })
                    &&& linear_opt_updated(
                        old(self).linear_index,
                        final(self).linear_index,
                        start,
                        end,
                        index,
                    )
                },
            },
    {
        if let Some(prev) = self.last_start {
            if start < prev {
                return Err(
                    HgIndexError::UnsortedFeatures {
                        chrom: Vec::new(),
                        bin_id: 0,
                        previous: prev,
                        current: start,
                    },
                );
            }
        }
        let bin_id = bins.region_to_bin(start, end);
        let f = Feature { start, end, index, length };
        let ghost olds = self.bins@;
        let pos = self.find_bin_pos(bin_id);
        if pos < self.bins.len() {
            self.bins[pos].1.push(f);
            proof {
                lemma_assoc_after_update(olds, self.bins@, pos as int, bin_id, f);
            }
        } else {
            let mut fresh: Vec<Feature> = Vec::new();
            fresh.push(f);
            self.bins.push((bin_id, fresh));
            proof {
                lemma_assoc_after_push(olds, (bin_id, fresh));
                lemma_assoc_absent(olds, bin_id);
                assert(assoc_lookup(self.bins@, bin_id) =~= assoc_lookup(olds, bin_id).push(f));
            }
        }
        let ghost news = self.bins@;
        match self.linear_index.take() {
            Some(mut li) => {
                li.update(start, end, index);
                self.linear_index = Some(li);
            },
            None => {},
        }
        self.last_start = Some(start);
        proof {
            lemma_add_feature_wf(*old(self), *self, bins, start, end, index, length, pos as int);
        }
        Ok(())
    }
}


/// Old structural positions survive the append unchanged.
proof fn lemma_old_structural_kept(pre: SequenceIndex, post: SequenceIndex, pos: int, t0: int, i0: int)
    requires
        0 <= t0 < pre.bins@.len(),
        0 <= i0 < pre.bins@[t0].1@.len(),
        0 <= pos <= pre.bins@.len(),
        pos < pre.bins@.len() ==> {
            &&& post.bins@.len() == pre.bins@.len()
            &&& post.bins@[pos].1@.len() == pre.bins@[pos].1@.len() + 1
            &&& (forall|i: int| 0 <= i < pre.bins@[pos].1@.len() ==> post.bins@[pos].1@[i]
                == pre.bins@[pos].1@[i])
            &&& (forall|u: int| 0 <= u < pre.bins@.len() && u != pos ==> (#[trigger] post.bins@[u])
                == pre.bins@[u])
        },
        pos == pre.bins@.len() ==> {
            &&& post.bins@.len() == pre.bins@.len() + 1
            &&& (forall|u: int| 0 <= u < pre.bins@.len() ==> (#[trigger] post.bins@[u])
                == pre.bins@[u])
        },
    ensures
        0 <= t0 < post.bins@.len(),
        0 <= i0 < post.bins@[t0].1@.len(),
        post.bins@[t0].1@[i0] == pre.bins@[t0].1@[i0],
{
}

/// Adding one feature preserves the per-sequence well-formedness.
proof fn lemma_add_feature_wf(
    pre: SequenceIndex,
    post: SequenceIndex,
    hb: &HierarchicalBins,
    start: u32,
    end: u32,
    index: u64,
    length: u64,
    pos: int,
)
    requires
        pre.wf(hb),
        hb.wf(),
        start < end,
        ((end - 1) as u32 as nat) < hb.coord_ceiling(),
        pre.spec_last_start() matches Some(prev) ==> start >= prev,
        post.spec_last_start() == Some(start),
        0 <= pos <= pre.bins@.len(),
        pos < pre.bins@.len() ==> {
            &&& post.bins@.len() == pre.bins@.len()
            &&& pre.bins@[pos].0 as nat == hb.spec_region_to_bin(start, end)
            &&& post.bins@[pos].0 == pre.bins@[pos].0
            &&& post.bins@[pos].1@ == pre.bins@[pos].1@.push(
                Feature { start, end, index, length },
            )
            &&& forall|u: int| 0 <= u < pre.bins@.len() && u != pos ==> (#[trigger] post.bins@[u])
                == pre.bins@[u]
        },
        pos == pre.bins@.len() ==> {
            &&& post.bins@.len() == pre.bins@.len() + 1
            &&& (forall|u: int| 0 <= u < pre.bins@.len() ==> (#[trigger] post.bins@[u])
                == pre.bins@[u])
            &&& (forall|u: int| 0 <= u < pre.bins@.len() ==> (#[trigger] pre.bins@[u]).0 as nat
                != hb.spec_region_to_bin(start, end))
            &&& post.bins@[pos].0 as nat == hb.spec_region_to_bin(start, end)
            &&& post.bins@[pos].1@ == seq![Feature { start, end, index, length }]
        },
        match (pre.linear_index, post.linear_index) {
            (Some(li0), Some(li1)) => {
                &&& li0.wf()
                &&& li1.spec_shift() == li0.spec_shift()
                &&& li1.spec_entries().len() == if li0.spec_entries().len() > li0.window_of(
                    (end - 1) as u32,
                ) + 1 {
                    li0.spec_entries().len() as int
                } else {
                    li0.window_of((end - 1) as u32) + 1
                }
                &&& (forall|w: int|
                    0 <= w < li1.spec_entries().len() ==> li1.spec_entries()[w] == ({
                        let base = if w < li0.spec_entries().len() {
                            li0.spec_entries()[w]
                        } else {
                            u64::MAX
                        };
                        if li0.window_of(start) <= w <= li0.window_of((end - 1) as u32) {
                            min_u64(base, index)
                        } else {
                            base
                        }
                    }))
            },
            (None, None) => true,
            _ => false,
        },
    ensures
        post.wf(hb),
{
    let f = Feature { start, end, index, length };
    let nb = post.bins@;
    let ob = pre.bins@;
    // Distinct keys.
    assert forall|t1: int, t2: int| 0 <= t1 < t2 < nb.len() implies (#[trigger] nb[t1]).0 != (
    #[trigger] nb[t2]).0 by {
        if pos < ob.len() {
            assert(nb[t1].0 == ob[t1].0);
            assert(nb[t2].0 == ob[t2].0);
        } else {
            if t2 < ob.len() {
            } else {
                assert(t2 == pos);
                assert(nb[t1] == ob[t1]);
                assert(ob[t1].0 as nat != hb.spec_region_to_bin(start, end));
            }
        }
    }
    // Feature validity and last-start dominance.
    assert forall|t: int, i: int|
        #![trigger nb[t].1@[i]]
        0 <= t < nb.len() && 0 <= i < nb[t].1@.len() implies feature_ok(
        nb[t].1@[i],
        nb[t].0,
        post.spec_last_start(),
        hb,
    ) by {
        if t < ob.len() && (pos >= ob.len() || t != pos) {
            assert(nb[t] == ob[t]);
            assert(ob[t].1@[i] == nb[t].1@[i]);
            assert(feature_ok(ob[t].1@[i], ob[t].0, pre.spec_last_start(), hb));
        } else if pos < ob.len() && t == pos {
            if i < ob[t].1@.len() {
                assert(nb[t].1@[i] == ob[t].1@[i]);
                assert(feature_ok(ob[t].1@[i], ob[t].0, pre.spec_last_start(), hb));
            } else {
                assert(nb[t].1@[i] == f);
            }
        } else {
            assert(t == pos && pos == ob.len());
            assert(nb[t].1@[i] == f);
        }
    }
    assert(post.wf_features(hb));
    // Distinct keys, restated through the named parts.
    assert(post.wf_keys());
    // Linear-index clauses.
    match (pre.linear_index, post.linear_index) {
        (Some(li0), Some(li1)) => {
            assert(li1.wf());
            // Provenance of written cells: a cell below the neutral value
            // was put there by the new feature or carries over.
            assert forall|w: int|
                0 <= w < li1.spec_entries().len() && #[trigger] li1.spec_entries()[w]
                    != u64::MAX implies window_touched(&post, li1, w) by {
                let in_span = li0.window_of(start) <= w <= li0.window_of((end - 1) as u32);
                let base_known = w < li0.spec_entries().len() && li0.spec_entries()[w]
                    != u64::MAX;
                if in_span && (!base_known || li1.spec_entries()[w] != li0.spec_entries()[w]
                    || base_known) {
                    if base_known && li1.spec_entries()[w] == li0.spec_entries()[w] {
                        // Carried over from before the append.
                        assert(window_touched(&pre, li0, w));
                        let (t0, i0): (int, int) = choose|t: int, i: int|
                            #![trigger ob[t].1@[i]]
                            0 <= t < ob.len() && 0 <= i < ob[t].1@.len() && li0.window_of(
                                ob[t].1@[i].start,
                            ) <= w <= li0.window_of((ob[t].1@[i].end - 1) as u32);
                        lemma_old_structural_kept(pre, post, pos, t0, i0);
                        assert(nb[t0].1@[i0] == ob[t0].1@[i0]);
                    } else {
                        // Written by the new feature, which touches `w`.
                        if pos < ob.len() {
                            assert(nb[pos as int].1@[ob[pos as int].1@.len() as int] == f);
                        } else {
                            assert(nb[pos as int].1@[0] == f);
                        }
                    }
                } else if base_known {
                    // Outside the new feature's span: carried over.
                    assert(window_touched(&pre, li0, w));
                    let (t0, i0): (int, int) = choose|t: int, i: int|
                        #![trigger ob[t].1@[i]]
                        0 <= t < ob.len() && 0 <= i < ob[t].1@.len() && li0.window_of(
                            ob[t].1@[i].start,
                        ) <= w <= li0.window_of((ob[t].1@[i].end - 1) as u32);
                    lemma_old_structural_kept(pre, post, pos, t0, i0);
                    assert(nb[t0].1@[i0] == ob[t0].1@[i0]);
                }
            }
            assert forall|t: int, i: int|
                #![trigger nb[t].1@[i]]
                0 <= t < nb.len() && 0 <= i < nb[t].1@.len() implies li1.window_of(
                (nb[t].1@[i].end - 1) as u32,
            ) < li1.spec_entries().len() by {
                let g = nb[t].1@[i];
                if t < ob.len() && (pos >= ob.len() || t != pos) {
                    assert(nb[t] == ob[t]);
                    assert(g == ob[t].1@[i]);
                } else if pos < ob.len() && t == pos && i < ob[t].1@.len() {
                    assert(g == ob[t].1@[i]);
                } else {
                    assert(g == f);
                }
            }
            assert forall|t: int, i: int, w: int|
                #![trigger nb[t].1@[i], li1.spec_entries()[w]]
                0 <= t < nb.len() && 0 <= i < nb[t].1@.len() && li1.window_of(nb[t].1@[i].start)
                    <= w <= li1.window_of((nb[t].1@[i].end - 1) as u32) implies li1.spec_entries()[w]
                <= nb[t].1@[i].index by {
                let g = nb[t].1@[i];
                assert(0 <= w) by {
                    lemma_pow2_pos(li1.spec_shift() as nat);
                    vstd::arithmetic::div_mod::lemma_div_pos_is_pos(
                        g.start as int,
                        pow2(li1.spec_shift() as nat) as int,
                    );
                }
                assert(w < li1.spec_entries().len());
                if t < ob.len() && (pos >= ob.len() || t != pos) {
                    assert(nb[t] == ob[t]);
                    assert(g == ob[t].1@[i]);
                    assert(li0.spec_entries()[w] <= g.index);
                } else if pos < ob.len() && t == pos && i < ob[t].1@.len() {
                    assert(g == ob[t].1@[i]);
                    assert(li0.spec_entries()[w] <= g.index);
                } else {
                    assert(g == f);
                }
            }
        },
        (None, None) => {},
        _ => {},
    }
}



/// The feature stored under bin `b` at position `i`.
pub open spec fn stored_at(seq: &SequenceIndex, b: u32, i: int) -> Feature {
    assoc_lookup(seq.bins@, b)[i]
}

/// Whether `(b, i)` names a stored feature.
pub open spec fn valid_pos(seq: &SequenceIndex, b: u32, i: int) -> bool {
    0 <= i < assoc_lookup(seq.bins@, b).len()
}

/// Offsets never run against starts: a feature starting earlier was
/// written at or before a feature starting later.  The record store
/// guarantees this by handing out monotonically growing file offsets for
/// a sorted append stream.
pub open spec fn offsets_follow_starts(seq: &SequenceIndex) -> bool {
    forall|b1: u32, i1: int, b2: u32, i2: int|
        #![trigger stored_at(seq, b1, i1), stored_at(seq, b2, i2)]
        valid_pos(seq, b1, i1) && valid_pos(seq, b2, i2) && stored_at(seq, b1, i1).start
            < stored_at(seq, b2, i2).start ==> stored_at(seq, b1, i1).index <= stored_at(
            seq,
            b2,
            i2,
        ).index
}

/// No two stored features of one sequence share an offset.  The record
/// store guarantees this: each feature's offset is the file position its
/// frame was written at.
pub open spec fn offsets_distinct(seq: SequenceIndex) -> bool {
    forall|b1: u32, i1: int, b2: u32, i2: int|
        #![trigger stored_at(&seq, b1, i1), stored_at(&seq, b2, i2)]
        valid_pos(&seq, b1, i1) && valid_pos(&seq, b2, i2) && (b1 != b2 || i1 != i2)
            ==> stored_at(&seq, b1, i1).index != stored_at(&seq, b2, i2).index
}

/// A held key occurs at some position of the association list.
proof fn lemma_assoc_contains_index(bins: Seq<(u32, Vec<Feature>)>, key: u32)
    requires
        assoc_contains(bins, key),
    ensures
        exists|t: int| 0 <= t < bins.len() && (#[trigger] bins[t]).0 == key,
    decreases bins.len(),
{
    if bins[0].0 == key {
        assert(bins[0].0 == key);
    } else {
        lemma_assoc_contains_index(bins.drop_first(), key);
        let t = choose|t: int| 0 <= t < bins.drop_first().len() && (#[trigger] bins.drop_first()[t]).0 == key;
        assert(bins[t + 1].0 == key);
    }
}

/// A structurally stored feature is a stored position of its entry's
/// key.
proof fn lemma_structural_pos(seq: &SequenceIndex, t: int, i: int)
    requires
        seq.wf_keys(),
        0 <= t < seq.bins@.len(),
        0 <= i < seq.bins@[t].1@.len(),
    ensures
        valid_pos(seq, seq.bins@[t].0, i),
        stored_at(seq, seq.bins@[t].0, i) == seq.bins@[t].1@[i],
{
    lemma_lookup_is_entry(seq.bins@, t);
}

/// With distinct keys, the lookup of an entry's key is that entry's list.
proof fn lemma_lookup_is_entry(bins: Seq<(u32, Vec<Feature>)>, t: int)
    requires
        0 <= t < bins.len(),
        forall|t1: int, t2: int| 0 <= t1 < t2 < bins.len() ==> (#[trigger] bins[t1]).0 != (
        #[trigger] bins[t2]).0,
    ensures
        assoc_lookup(bins, bins[t].0) == bins[t].1@,
        assoc_contains(bins, bins[t].0),
{
    lemma_assoc_lookup_at(bins, bins[t].0, t);
}

/// A nonempty lookup names a structurally stored entry: bridge from the
/// association view to the structural view of the bins.
proof fn lemma_lookup_pos(seq: &SequenceIndex, hb: &HierarchicalBins, b: u32, i: int)
    requires
        seq.wf_keys(),
        valid_pos(seq, b, i),
    ensures
        exists|t: int| 0 <= t < seq.bins@.len() && (#[trigger] seq.bins@[t]).0 == b
            && seq.bins@[t].1@ == assoc_lookup(seq.bins@, b),
{
    if !assoc_contains(seq.bins@, b) {
        lemma_assoc_absent_all(seq.bins@, b);
        assert(assoc_lookup(seq.bins@, b) == Seq::<Feature>::empty());
    }
    lemma_assoc_contains_index(seq.bins@, b);
    let t = choose|t: int| 0 <= t < seq.bins@.len() && (#[trigger] seq.bins@[t]).0 == b;
    lemma_lookup_is_entry(seq.bins@, t);
}

/// A key that never occurs is not contained.
proof fn lemma_assoc_absent_all(bins: Seq<(u32, Vec<Feature>)>, key: u32)
    requires
        !assoc_contains(bins, key),
    ensures
        assoc_lookup(bins, key) == Seq::<Feature>::empty(),
    decreases bins.len(),
{
    if bins.len() > 0 {
        lemma_assoc_absent_all(bins.drop_first(), key);
    }
}

/// A stored feature, seen through the association view, is a sound
/// entry of its bin: the coordinate and bin-assignment facts of
/// `wf_features`.
pub proof fn lemma_stored_feature_ok(seq: &SequenceIndex, hb: &HierarchicalBins, b: u32, i: int)
    requires
        seq.wf_keys(),
        seq.wf_features(hb),
        valid_pos(seq, b, i),
    ensures
        ({
            let f = stored_at(seq, b, i);
            &&& f.start < f.end
            &&& ((f.end - 1) as u32 as nat) < hb.coord_ceiling()
            &&& hb.spec_region_to_bin(f.start, f.end) == b as nat
            &&& (seq.spec_last_start() matches Some(ls) && f.start <= ls)
        }),
{
    lemma_lookup_pos(seq, hb, b, i);
    let t = choose|t: int| 0 <= t < seq.bins@.len() && (#[trigger] seq.bins@[t]).0 == b
        && seq.bins@[t].1@ == assoc_lookup(seq.bins@, b);
    assert(seq.bins@[t].1@[i] == stored_at(seq, b, i));
    assert(feature_ok(seq.bins@[t].1@[i], seq.bins@[t].0, seq.spec_last_start(), hb));
}

/// A stored feature, seen through the association view, meets the
/// well-formedness facts stated structurally.
proof fn lemma_stored_feature_wf(seq: &SequenceIndex, hb: &HierarchicalBins, b: u32, i: int)
    requires
        seq.wf(hb),
        valid_pos(seq, b, i),
    ensures
        ({
            let f = stored_at(seq, b, i);
            &&& f.start < f.end
            &&& ((f.end - 1) as u32 as nat) < hb.coord_ceiling()
            &&& hb.spec_region_to_bin(f.start, f.end) == b as nat
            &&& (seq.linear_index matches Some(li) ==> {
                &&& li.window_of((f.end - 1) as u32) < li.spec_entries().len()
                &&& (forall|w: int|
                    li.window_of(f.start) <= w <= li.window_of((f.end - 1) as u32)
                        ==> #[trigger] li.spec_entries()[w] <= f.index)
            })
        }),
{
    lemma_lookup_pos(seq, hb, b, i);
    let t = choose|t: int| 0 <= t < seq.bins@.len() && (#[trigger] seq.bins@[t]).0 == b
        && seq.bins@[t].1@ == assoc_lookup(seq.bins@, b);
    assert(seq.bins@[t].1@[i] == stored_at(seq, b, i));
    assert(feature_ok(seq.bins@[t].1@[i], seq.bins@[t].0, seq.spec_last_start(), hb));
    let f = stored_at(seq, b, i);
    match seq.linear_index {
        Some(li) => {
            assert forall|w: int|
                li.window_of(f.start) <= w <= li.window_of((f.end - 1) as u32) implies #[trigger] li.spec_entries()[w] <= f.index by {
                lemma_pow2_pos(li.spec_shift() as nat);
                vstd::arithmetic::div_mod::lemma_div_pos_is_pos(
                    f.start as int,
                    pow2(li.spec_shift() as nat) as int,
                );
                assert(seq.bins@[t].1@[i] == f);
                assert(li.spec_entries()[w] <= seq.bins@[t].1@[i].index);
            }
        },
        None => {},
    }
}

/// Windows are monotone in the coordinate.
proof fn lemma_window_mono(li: &LinearIndex, x: u32, y: u32)
    requires
        x <= y,
    ensures
        li.window_of(x) <= li.window_of(y),
{
    lemma_pow2_pos(li.spec_shift() as nat);
    lemma_div_is_ordered(x as int, y as int, pow2(li.spec_shift() as nat) as int);
}

/// The linear index's lower bound never cuts off a stored feature that
/// reaches past the query start, provided offsets follow starts.  An
/// untouched window imposes no bound; a touched one holds an offset no
/// later than that of any feature reaching past the window.
proof fn lemma_min_offset_le(
    seq: &SequenceIndex,
    hb: &HierarchicalBins,
    q0: u32,
    b: u32,
    i: int,
)
    requires
        seq.wf(hb),
        offsets_follow_starts(seq),
        valid_pos(seq, b, i),
        stored_at(seq, b, i).end > q0,
    ensures
        seq.spec_min_offset(q0) <= stored_at(seq, b, i).index,
{
    let f = stored_at(seq, b, i);
    lemma_stored_feature_wf(seq, hb, b, i);
    match seq.linear_index {
        None => {},
        Some(li) => {
            let w0 = li.window_of(q0);
            lemma_pow2_pos(li.spec_shift() as nat);
            vstd::arithmetic::div_mod::lemma_div_pos_is_pos(
                q0 as int,
                pow2(li.spec_shift() as nat) as int,
            );
            if w0 < li.spec_entries().len() && li.spec_entries()[w0] != u64::MAX {
                let c = li.spec_entries()[w0];
                // The cell was written by some feature touching this
                // window.
                assert(window_touched(seq, li, w0)) by {
                    assert(seq.wf_linear_bounds());
                    assert(li.spec_entries()[w0] != u64::MAX);
                }
                let (tg, ig): (int, int) = choose|t: int, i2: int|
                    #![trigger seq.bins@[t].1@[i2]]
                    0 <= t < seq.bins@.len() && 0 <= i2 < seq.bins@[t].1@.len() && li.window_of(
                        seq.bins@[t].1@[i2].start,
                    ) <= w0 <= li.window_of((seq.bins@[t].1@[i2].end - 1) as u32);
                lemma_structural_pos(seq, tg, ig);
                let bg = seq.bins@[tg].0;
                let g = stored_at(seq, bg, ig);
                lemma_stored_feature_wf(seq, hb, bg, ig);
                // The array's cell undercuts the touching feature.
                assert(li.spec_entries()[w0] <= g.index);
                lemma_window_mono(&li, q0, (f.end - 1) as u32);
                if li.window_of(f.start) <= w0 {
                    // `f` itself touches the window.
                    assert(li.spec_entries()[w0] <= f.index);
                } else {
                    // `g` starts in an earlier window, so `g.start < f.start`.
                    assert(li.window_of(g.start) < li.window_of(f.start));
                    if g.start >= f.start {
                        lemma_window_mono(&li, f.start, g.start);
                        assert(false);
                    }
                    assert(stored_at(seq, bg, ig).index <= stored_at(seq, b, i).index);
                }
                assert(seq.spec_min_offset(q0) == c);
            } else {
                assert(seq.spec_min_offset(q0) == 0);
            }
        },
    }
}

/// A matching feature's pair occurs among the matches of its list.
proof fn lemma_matches_of_contains(fs: Seq<Feature>, q0: u32, q1: u32, m: u64, i: int)
    requires
        0 <= i < fs.len(),
        feature_matches(fs[i], q0, q1, m),
    ensures
        matches_of(fs, q0, q1, m).contains((fs[i].index, fs[i].length)),
    decreases fs.len(),
{
    if i == fs.len() - 1 {
        let res = matches_of(fs, q0, q1, m);
        assert(res[res.len() - 1] == (fs[i].index, fs[i].length));
    } else {
        lemma_matches_of_contains(fs.drop_last(), q0, q1, m, i);
        let sub = matches_of(fs.drop_last(), q0, q1, m);
        let k = choose|k: int| 0 <= k < sub.len() && sub[k] == (fs[i].index, fs[i].length);
        assert(matches_of(fs, q0, q1, m)[k] == (fs[i].index, fs[i].length));
    }
}

/// A pair contributed by one candidate bin occurs in the whole result.
proof fn lemma_matches_in_bins_contains(
    bins: Seq<(u32, Vec<Feature>)>,
    ids: Seq<u32>,
    q0: u32,
    q1: u32,
    m: u64,
    p: int,
    x: (u64, u64),
)
    requires
        0 <= p < ids.len(),
        matches_of(assoc_lookup(bins, ids[p]), q0, q1, m).contains(x),
    ensures
        matches_in_bins(bins, ids, q0, q1, m).contains(x),
    decreases ids.len(),
{
    let whole = matches_in_bins(bins, ids, q0, q1, m);
    let left = matches_in_bins(bins, ids.drop_last(), q0, q1, m);
    let right = matches_of(assoc_lookup(bins, ids.last()), q0, q1, m);
    if p == ids.len() - 1 {
        let k = choose|k: int| 0 <= k < right.len() && right[k] == x;
        assert(whole[left.len() + k] == x);
    } else {
        assert(ids.drop_last()[p] == ids[p]);
        lemma_matches_in_bins_contains(bins, ids.drop_last(), q0, q1, m, p, x);
        let k = choose|k: int| 0 <= k < left.len() && left[k] == x;
        assert(whole[k] == x);
    }
}

/// Completeness: every stored feature overlapping the query contributes
/// its `(offset, length)` pair to the query result, provided offsets
/// follow starts, as they do in any store.  In particular a feature just
/// added sits at the end of its bin's lookup (by `add_feature`'s
/// postcondition), and later additions only extend lookups, so an
/// accepted insert stays retrievable by every later overlapping query.
pub proof fn lemma_query_completeness(
    seq: &SequenceIndex,
    hb: &HierarchicalBins,
    q0: u32,
    q1: u32,
    b: u32,
    i: int,
)
    requires
        seq.wf(hb),
        hb.wf(),
        q0 < q1,
        offsets_follow_starts(seq),
        valid_pos(seq, b, i),
        stored_at(seq, b, i).start < q1,
        stored_at(seq, b, i).end > q0,
    ensures
        seq.spec_find(hb, q0, q1).contains(
            (stored_at(seq, b, i).index, stored_at(seq, b, i).length),
        ),
{
    let f = stored_at(seq, b, i);
    lemma_stored_feature_wf(seq, hb, b, i);
    // The query start sits below the ceiling because `f` reaches past it.
    assert((q0 as nat) < hb.coord_ceiling());
    let q1c = clamped_end(hb, q1);
    assert(q0 < q1c);
    assert(((q1c - 1) as u32 as nat) < hb.coord_ceiling());
    assert(f.start < q1c);
    // The feature's bin is among the candidates.
    crate::binning::lemma_overlapping_bin_enumerated(hb, f.start, f.end, q0, q1c);
    let ids = hb.spec_region_to_bins(q0, q1c);
    assert(ids.contains(b)) by {
        assert(hb.spec_region_to_bin(f.start, f.end) == b as nat);
    }
    // The linear bound does not cut the feature off.
    lemma_min_offset_le(seq, hb, q0, b, i);
    let m = seq.spec_min_offset(q0);
    assert(feature_matches(f, q0, q1, m));
    lemma_matches_of_contains(assoc_lookup(seq.bins@, b), q0, q1, m, i);
    let p = choose|p: int| 0 <= p < ids.len() && ids[p] == b;
    lemma_matches_in_bins_contains(seq.bins@, ids, q0, q1, m, p, (f.index, f.length));
}

/// Soundness helper: every element of a list's matches is the pair of a
/// matching feature of that list.
proof fn lemma_matches_of_sound(fs: Seq<Feature>, q0: u32, q1: u32, m: u64, k: int)
    requires
        0 <= k < matches_of(fs, q0, q1, m).len(),
    ensures
        exists|i: int| 0 <= i < fs.len() && feature_matches(#[trigger] fs[i], q0, q1, m)
            && matches_of(fs, q0, q1, m)[k] == (fs[i].index, fs[i].length),
    decreases fs.len(),
{
    let res = matches_of(fs, q0, q1, m);
    let sub = matches_of(fs.drop_last(), q0, q1, m);
    if k < sub.len() {
        lemma_matches_of_sound(fs.drop_last(), q0, q1, m, k);
        let i = choose|i: int| 0 <= i < fs.drop_last().len() && feature_matches(
            #[trigger] fs.drop_last()[i],
            q0,
            q1,
            m,
        ) && sub[k] == (fs.drop_last()[i].index, fs.drop_last()[i].length);
        assert(fs[i] == fs.drop_last()[i]);
        assert(res[k] == sub[k]);
    } else {
        assert(feature_matches(fs.last(), q0, q1, m));
        assert(res[k] == (fs.last().index, fs.last().length));
        assert(fs[fs.len() - 1] == fs.last());
    }
}

/// Soundness helper over the candidate list.
proof fn lemma_matches_in_bins_sound(
    bins: Seq<(u32, Vec<Feature>)>,
    ids: Seq<u32>,
    q0: u32,
    q1: u32,
    m: u64,
    k: int,
)
    requires
        0 <= k < matches_in_bins(bins, ids, q0, q1, m).len(),
    ensures
        exists|p: int, i: int|
            #![trigger assoc_lookup(bins, ids[p])[i]]
            0 <= p < ids.len() && 0 <= i < assoc_lookup(bins, ids[p]).len() && feature_matches(
                assoc_lookup(bins, ids[p])[i],
                q0,
                q1,
                m,
            ) && matches_in_bins(bins, ids, q0, q1, m)[k] == (
                assoc_lookup(bins, ids[p])[i].index,
                assoc_lookup(bins, ids[p])[i].length,
            ),
    decreases ids.len(),
{
    let whole = matches_in_bins(bins, ids, q0, q1, m);
    let left = matches_in_bins(bins, ids.drop_last(), q0, q1, m);
    let right = matches_of(assoc_lookup(bins, ids.last()), q0, q1, m);
    if k < left.len() {
        lemma_matches_in_bins_sound(bins, ids.drop_last(), q0, q1, m, k);
        let (p, i): (int, int) = choose|p: int, i: int|
            #![trigger assoc_lookup(bins, ids.drop_last()[p])[i]]
            0 <= p < ids.drop_last().len() && 0 <= i < assoc_lookup(
                bins,
                ids.drop_last()[p],
            ).len() && feature_matches(assoc_lookup(bins, ids.drop_last()[p])[i], q0, q1, m)
                && left[k] == (
                assoc_lookup(bins, ids.drop_last()[p])[i].index,
                assoc_lookup(bins, ids.drop_last()[p])[i].length,
            );
        assert(ids.drop_last()[p] == ids[p]);
        assert(whole[k] == left[k]);
        assert(assoc_lookup(bins, ids[p])[i] == assoc_lookup(bins, ids.drop_last()[p])[i]);
    } else {
        lemma_matches_of_sound(assoc_lookup(bins, ids.last()), q0, q1, m, k - left.len());
        let i = choose|i: int| 0 <= i < assoc_lookup(bins, ids.last()).len() && feature_matches(
            #[trigger] assoc_lookup(bins, ids.last())[i],
            q0,
            q1,
            m,
        ) && right[k - left.len()] == (
            assoc_lookup(bins, ids.last())[i].index,
            assoc_lookup(bins, ids.last())[i].length,
        );
        assert(ids[ids.len() - 1] == ids.last());
        assert(whole[k] == right[k - left.len()]);
        assert(assoc_lookup(bins, ids[ids.len() - 1])[i] == assoc_lookup(bins, ids.last())[i]);
    }
}

/// Soundness: every pair in a query result is the `(offset, length)` of a
/// stored feature whose range overlaps the query.
pub proof fn lemma_query_soundness(
    seq: &SequenceIndex,
    hb: &HierarchicalBins,
    q0: u32,
    q1: u32,
    k: int,
)
    requires
        q0 < q1,
        0 <= k < seq.spec_find(hb, q0, q1).len(),
    ensures
        exists|b: u32, i: int|
            #![trigger valid_pos(seq, b, i)]
            valid_pos(seq, b, i) && stored_at(seq, b, i).start < q1 && stored_at(seq, b, i).end
                > q0 && seq.spec_find(hb, q0, q1)[k] == (
                stored_at(seq, b, i).index,
                stored_at(seq, b, i).length,
            ),
{
    let res = seq.spec_find(hb, q0, q1);
    let ids = hb.spec_region_to_bins(q0, clamped_end(hb, q1));
    let m = seq.spec_min_offset(q0);
    lemma_matches_in_bins_sound(seq.bins@, ids, q0, q1, m, k);
    let (p, i): (int, int) = choose|p: int, i: int|
        #![trigger assoc_lookup(seq.bins@, ids[p])[i]]
        0 <= p < ids.len() && 0 <= i < assoc_lookup(seq.bins@, ids[p]).len()
            && feature_matches(assoc_lookup(seq.bins@, ids[p])[i], q0, q1, m) && res[k] == (
            assoc_lookup(seq.bins@, ids[p])[i].index,
            assoc_lookup(seq.bins@, ids[p])[i].length,
        );
    assert(valid_pos(seq, ids[p], i));
    assert(stored_at(seq, ids[p], i) == assoc_lookup(seq.bins@, ids[p])[i]);
}

/// Dropping the linear index never changes a query's result, provided
/// offsets follow starts, as they do in any store.
pub proof fn lemma_linear_index_immaterial(
    seq: &SequenceIndex,
    bare: &SequenceIndex,
    hb: &HierarchicalBins,
    q0: u32,
    q1: u32,
)
    requires
        seq.wf(hb),
        hb.wf(),
        q0 < q1,
        offsets_follow_starts(seq),
        bare.bins == seq.bins,
        bare.linear_index.is_none(),
    ensures
        seq.spec_find(hb, q0, q1) == bare.spec_find(hb, q0, q1),
{
    if (q0 as nat) >= hb.coord_ceiling() {
    } else {
        let ids = hb.spec_region_to_bins(q0, clamped_end(hb, q1));
        let m = seq.spec_min_offset(q0);
        assert(bare.spec_min_offset(q0) == 0);
        lemma_matches_same(seq, hb, ids, q0, q1, m);
    }
}

/// Filtering by the linear bound keeps the same matches as not
/// filtering at all.
proof fn lemma_matches_same(
    seq: &SequenceIndex,
    hb: &HierarchicalBins,
    ids: Seq<u32>,
    q0: u32,
    q1: u32,
    m: u64,
)
    requires
        seq.wf(hb),
        hb.wf(),
        offsets_follow_starts(seq),
        m == seq.spec_min_offset(q0),
    ensures
        matches_in_bins(seq.bins@, ids, q0, q1, m) == matches_in_bins(seq.bins@, ids, q0, q1, 0),
    decreases ids.len(),
{
    if ids.len() > 0 {
        lemma_matches_same(seq, hb, ids.drop_last(), q0, q1, m);
        lemma_matches_of_same(seq, hb, ids.last(), assoc_lookup(seq.bins@, ids.last()).len() as int, q0, q1, m);
    }
}

/// Per-list version of `lemma_matches_same`, over the first `n` features.
proof fn lemma_matches_of_same(
    seq: &SequenceIndex,
    hb: &HierarchicalBins,
    b: u32,
    n: int,
    q0: u32,
    q1: u32,
    m: u64,
)
    requires
        seq.wf(hb),
        hb.wf(),
        offsets_follow_starts(seq),
        m == seq.spec_min_offset(q0),
        0 <= n <= assoc_lookup(seq.bins@, b).len(),
    ensures
        matches_of(assoc_lookup(seq.bins@, b).take(n), q0, q1, m) == matches_of(
            assoc_lookup(seq.bins@, b).take(n),
            q0,
            q1,
            0,
        ),
        n == assoc_lookup(seq.bins@, b).len() ==> matches_of(
            assoc_lookup(seq.bins@, b),
            q0,
            q1,
            m,
        ) == matches_of(assoc_lookup(seq.bins@, b), q0, q1, 0),
    decreases n,
{
    let fs = assoc_lookup(seq.bins@, b);
    if n > 0 {
        lemma_matches_of_same(seq, hb, b, n - 1, q0, q1, m);
        assert(fs.take(n).drop_last() =~= fs.take(n - 1));
        let f = fs.take(n).last();
        assert(f == fs[n - 1]);
        if f.start < q1 && f.end > q0 {
            lemma_min_offset_le(seq, hb, q0, b, n - 1);
            assert(feature_matches(f, q0, q1, m) == feature_matches(f, q0, q1, 0));
        } else {
            assert(!feature_matches(f, q0, q1, m) && !feature_matches(f, q0, q1, 0));
        }
    }
    if n == fs.len() {
        assert(fs.take(n) =~= fs);
    }
}



/// Byte-slice equality, compared element by element.
pub fn bytes_eq(a: &[u8], b: &[u8]) -> (r: bool)
    ensures
        r == (a@ == b@),
{
    if a.len() != b.len() {
        proof {
            assert(a@ != b@);
        }
        return false;
    }
    let n = a.len();
    let mut i: usize = 0;
    while i < n
        invariant
            i <= n,
            n == a@.len(),
            n == b@.len(),
            forall|t: int| 0 <= t < i ==> a@[t] == b@[t],
        decreases n - i,
    {
        if a[i] != b[i] {
            proof {
                assert(a@[i as int] != b@[i as int]);
            }
            return false;
        }
        i = i + 1;
    }
    proof {
        assert(a@ =~= b@);
    }
    true
}

/// The sequence index stored under a name, if any; names compare by
/// their byte content.
pub open spec fn seq_lookup(
    seqs: Seq<(Vec<u8>, SequenceIndex)>,
    name: Seq<u8>,
) -> Option<SequenceIndex>
    decreases seqs.len(),
{
    if seqs.len() == 0 {
        None
    } else if seqs[0].0@ == name {
        Some(seqs[0].1)
    } else {
        seq_lookup(seqs.drop_first(), name)
    }
}

/// Whether some entry carries this name.
pub open spec fn seq_contains(seqs: Seq<(Vec<u8>, SequenceIndex)>, name: Seq<u8>) -> bool
    decreases seqs.len(),
{
    seqs.len() > 0 && (seqs[0].0@ == name || seq_contains(seqs.drop_first(), name))
}

/// Looking up a name held first at position `t` yields that entry.
proof fn lemma_seq_lookup_at(seqs: Seq<(Vec<u8>, SequenceIndex)>, name: Seq<u8>, t: int)
    requires
        0 <= t < seqs.len(),
        seqs[t].0@ == name,
        forall|u: int| 0 <= u < t ==> (#[trigger] seqs[u]).0@ != name,
    ensures
        seq_contains(seqs, name),
        seq_lookup(seqs, name) == Some(seqs[t].1),
    decreases t,
{
    if t > 0 {
        lemma_seq_lookup_at(seqs.drop_first(), name, t - 1);
    }
}

/// Looking up a name no entry holds yields nothing.
proof fn lemma_seq_lookup_absent(seqs: Seq<(Vec<u8>, SequenceIndex)>, name: Seq<u8>)
    requires
        forall|u: int| 0 <= u < seqs.len() ==> (#[trigger] seqs[u]).0@ != name,
    ensures
        !seq_contains(seqs, name),
        seq_lookup(seqs, name).is_none(),
    decreases seqs.len(),
{
    if seqs.len() > 0 {
        lemma_seq_lookup_absent(seqs.drop_first(), name);
    }
}

/// Replacing the entry at `pos` (the first entry with this name) moves
/// the lookup of that name and no other.
proof fn lemma_seq_lookup_update(
    olds: Seq<(Vec<u8>, SequenceIndex)>,
    news: Seq<(Vec<u8>, SequenceIndex)>,
    pos: int,
    name: Seq<u8>,
)
    requires
        0 <= pos < olds.len(),
        news.len() == olds.len(),
        olds[pos].0@ == name,
        news[pos].0@ == name,
        forall|u: int| 0 <= u < pos ==> (#[trigger] olds[u]).0@ != name,
        forall|u: int| 0 <= u < olds.len() && u != pos ==> (#[trigger] news[u]) == olds[u],
    ensures
        seq_contains(news, name),
        seq_lookup(news, name) == Some(news[pos].1),
        forall|n2: Seq<u8>| n2 != name ==> seq_lookup(news, n2) == seq_lookup(olds, n2),
        forall|n2: Seq<u8>| n2 != name ==> (seq_contains(news, n2) <==> seq_contains(olds, n2)),
    decreases pos,
{
    if pos == 0 {
        assert(news.drop_first() =~= olds.drop_first());
        assert forall|n2: Seq<u8>| n2 != name implies seq_lookup(news, n2) == seq_lookup(olds, n2)
            && (seq_contains(news, n2) <==> seq_contains(olds, n2)) by {
            assert(seq_lookup(news, n2) == seq_lookup(news.drop_first(), n2));
            assert(seq_lookup(olds, n2) == seq_lookup(olds.drop_first(), n2));
            assert(seq_contains(news, n2) == seq_contains(news.drop_first(), n2));
            assert(seq_contains(olds, n2) == seq_contains(olds.drop_first(), n2));
        }
    } else {
        assert forall|u: int| 0 <= u < pos - 1 implies (#[trigger] olds.drop_first()[u]).0@ != name by {
            assert(olds.drop_first()[u] == olds[u + 1]);
        }
        assert forall|u: int| 0 <= u < olds.drop_first().len() && u != pos - 1 implies (
        #[trigger] news.drop_first()[u]) == olds.drop_first()[u] by {
            assert(news.drop_first()[u] == news[u + 1]);
            assert(olds.drop_first()[u] == olds[u + 1]);
        }
        assert(olds.drop_first()[pos - 1].0@ == name);
        assert(news.drop_first()[pos - 1].0@ == name);
        lemma_seq_lookup_update(olds.drop_first(), news.drop_first(), pos - 1, name);
        assert(news[0] == olds[0]);
        assert(olds[0].0@ != name);
        assert(seq_lookup(news, name) == seq_lookup(news.drop_first(), name));
        assert(news.drop_first()[pos - 1] == news[pos]);
        assert forall|n2: Seq<u8>| n2 != name implies seq_lookup(news, n2) == seq_lookup(olds, n2)
            && (seq_contains(news, n2) <==> seq_contains(olds, n2)) by {
            if olds[0].0@ != n2 {
                assert(seq_lookup(news, n2) == seq_lookup(news.drop_first(), n2));
                assert(seq_lookup(olds, n2) == seq_lookup(olds.drop_first(), n2));
                assert(seq_contains(news, n2) == seq_contains(news.drop_first(), n2));
                assert(seq_contains(olds, n2) == seq_contains(olds.drop_first(), n2));
            } else {
                assert(seq_lookup(news, n2) == Some(news[0].1));
                assert(seq_lookup(olds, n2) == Some(olds[0].1));
            }
        }
    }
}

/// Appending an entry under a fresh name adds that name's lookup and no
/// other.
proof fn lemma_seq_lookup_push(olds: Seq<(Vec<u8>, SequenceIndex)>, elt: (Vec<u8>, SequenceIndex))
    requires
        forall|u: int| 0 <= u < olds.len() ==> (#[trigger] olds[u]).0@ != elt.0@,
    ensures
        seq_contains(olds.push(elt), elt.0@),
        seq_lookup(olds.push(elt), elt.0@) == Some(elt.1),
        forall|n2: Seq<u8>| n2 != elt.0@ ==> seq_lookup(olds.push(elt), n2) == seq_lookup(
            olds,
            n2,
        ),
        forall|n2: Seq<u8>| n2 != elt.0@ ==> (seq_contains(olds.push(elt), n2) <==> seq_contains(
            olds,
            n2,
        )),
    decreases olds.len(),
{
    let news = olds.push(elt);
    if olds.len() == 0 {
        assert(news[0] == elt);
        assert(news.drop_first() =~= Seq::<(Vec<u8>, SequenceIndex)>::empty());
        assert forall|n2: Seq<u8>| n2 != elt.0@ implies seq_lookup(news, n2) == seq_lookup(
            olds,
            n2,
        ) && (seq_contains(news, n2) <==> seq_contains(olds, n2)) by {
            assert(seq_lookup(news, n2) == seq_lookup(news.drop_first(), n2));
            assert(!seq_contains(news.drop_first(), n2));
        }
    } else {
        assert forall|u: int| 0 <= u < olds.drop_first().len() implies (
        #[trigger] olds.drop_first()[u]).0@ != elt.0@ by {
            assert(olds.drop_first()[u] == olds[u + 1]);
        }
        lemma_seq_lookup_push(olds.drop_first(), elt);
        assert(news.drop_first() =~= olds.drop_first().push(elt));
        assert(news[0] == olds[0]);
        assert(olds[0].0@ != elt.0@);
        assert(seq_lookup(news, elt.0@) == seq_lookup(news.drop_first(), elt.0@));
        assert forall|n2: Seq<u8>| n2 != elt.0@ implies seq_lookup(news, n2) == seq_lookup(
            olds,
            n2,
        ) && (seq_contains(news, n2) <==> seq_contains(olds, n2)) by {
            if olds[0].0@ != n2 {
                assert(seq_lookup(news, n2) == seq_lookup(news.drop_first(), n2));
                assert(seq_lookup(olds, n2) == seq_lookup(olds.drop_first(), n2));
                assert(seq_contains(news, n2) == seq_contains(news.drop_first(), n2));
                assert(seq_contains(olds, n2) == seq_contains(olds.drop_first(), n2));
            } else {
                assert(seq_lookup(news, n2) == Some(news[0].1));
                assert(seq_lookup(olds, n2) == Some(olds[0].1));
            }
        }
    }
}

/// The whole-dataset index: the binning parameterization, one
/// `SequenceIndex` per sequence name, and the session's sort state.
#[derive(Clone, Debug, PartialEq)]
pub struct BinningIndex {
    /// The binning parameterization shared by all sequences.
    pub bins: HierarchicalBins,
    /// Per-sequence indexes, keyed by sequence name bytes.
    pub sequences: Vec<(Vec<u8>, SequenceIndex)>,
    /// The sequence that received the most recent feature.
    pub last_chrom: Option<Vec<u8>>,
    /// The start of the most recent feature.
    pub last_start: Option<u32>,
}

impl BinningIndex {
    /// Well-formedness: a valid scheme, distinct sequence names, and
    /// every per-sequence index well-formed under the scheme.
    pub open spec fn wf(&self) -> bool {
        &&& self.bins.wf()
        &&& (forall|t1: int, t2: int|
            0 <= t1 < t2 < self.sequences@.len() ==> (#[trigger] self.sequences@[t1]).0@ != (
            #[trigger] self.sequences@[t2]).0@)
        &&& (forall|t: int|
            0 <= t < self.sequences@.len() ==> (#[trigger] self.sequences@[t]).1.wf(&self.bins))
    }

    /// What a query path needs of the index: a valid scheme and valid
    /// linear shifts; weaker than `wf`, and established by the parser for
    /// indexes read back from disk.
    pub open spec fn query_wf(&self) -> bool {
        &&& self.bins.wf()
        &&& (forall|t: int|
            0 <= t < self.sequences@.len() ==> (#[trigger] self.sequences@[t]).1.linear_wf())
    }

    /// Create an empty index for a schema.
    pub fn new(schema: &BinningSchema) -> (r: Self)
        ensures
            r.wf(),
            r.bins.schema == *schema,
            r.bins.base_shift == crate::binning::schema_base_shift(*schema),
            r.bins.level_shift == crate::binning::schema_level_shift(*schema),
            r.bins.num_levels == crate::binning::schema_num_levels(*schema),
            r.bins.linear_shift == crate::binning::schema_linear_shift(*schema),
            r.sequences@.len() == 0,
            r.last_chrom.is_none(),
            r.last_start.is_none(),
    {
        let bins = HierarchicalBins::from_schema(schema);
        BinningIndex { bins, sequences: Vec::new(), last_chrom: None, last_start: None }
    }

    /// Whether the index's schema declares a linear index.
    pub fn has_linear_index(&self) -> (r: bool)
        ensures
            r == self.bins.linear_shift.is_some(),
    {
        self.bins.linear_shift.is_some()
    }

    /// Position of the entry for this name, or the length if none.
    fn find_seq_pos(&self, name: &[u8]) -> (r: usize)
        ensures
            r <= self.sequences@.len(),
            r < self.sequences@.len() ==> (self.sequences@[r as int].0@ == name@ && (forall|u: int|
                0 <= u < r ==> (#[trigger] self.sequences@[u]).0@ != name@)),
            r == self.sequences@.len() ==> (forall|u: int|
                0 <= u < self.sequences@.len() ==> (#[trigger] self.sequences@[u]).0@ != name@),
    {
        let n = self.sequences.len();
        let mut t: usize = 0;
        while t < n
            invariant
                t <= n,
                n == self.sequences@.len(),
                forall|u: int| 0 <= u < t ==> (#[trigger] self.sequences@[u]).0@ != name@,
            decreases n - t,
        {
            if bytes_eq(self.sequences[t].0.as_slice(), name) {
                return t;
            }
            t = t + 1;
        }
        n
    }

    /// The per-sequence index for a name, if that sequence has received
    /// any feature.
    pub fn get_sequence_index<'a>(&'a self, chrom: &str) -> (r: Option<&'a SequenceIndex>)
        ensures
            match r {
                Some(s) => seq_lookup(self.sequences@, chrom.spec_bytes()) == Some(*s),
                None => seq_lookup(self.sequences@, chrom.spec_bytes()).is_none(),
            },
    {
        let name = chrom.as_bytes();
        let pos = self.find_seq_pos(name);
        if pos < self.sequences.len() {
            proof {
                lemma_seq_lookup_at(self.sequences@, name@, pos as int);
            }
            Some(&self.sequences[pos].1)
        } else {
            proof {
                lemma_seq_lookup_absent(self.sequences@, name@);
            }
            None
        }
    }

    /// Drop every linear index and clear the schema's linear shift;
    /// queries keep returning the same results, only the candidate
    /// filtering changes.
    pub fn disable_linear_index(&mut self)
        requires
            old(self).wf(),
        ensures
            final(self).wf(),
            final(self).bins.linear_shift.is_none(),
            final(self).bins.schema == old(self).bins.schema,
            final(self).bins.base_shift == old(self).bins.base_shift,
            final(self).bins.level_shift == old(self).bins.level_shift,
            final(self).bins.num_levels == old(self).bins.num_levels,
            final(self).bins.levels == old(self).bins.levels,
            final(self).bins.bin_offsets == old(self).bins.bin_offsets,
            final(self).last_chrom == old(self).last_chrom,
            final(self).last_start == old(self).last_start,
            final(self).sequences@.len() == old(self).sequences@.len(),
            forall|t: int| 0 <= t < final(self).sequences@.len() ==> {
                &&& (#[trigger] final(self).sequences@[t]).0 == old(self).sequences@[t].0
                &&& final(self).sequences@[t].1.bins == old(self).sequences@[t].1.bins
                &&& final(self).sequences@[t].1.linear_index.is_none()
                &&& final(self).sequences@[t].1.spec_last_start() == old(
                    self,
                ).sequences@[t].1.spec_last_start()
            },
    {
        let n = self.sequences.len();
        let mut t: usize = 0;
        while t < n
            invariant
                t <= n,
                n == self.sequences@.len(),
                self.bins == old(self).bins,
                self.last_chrom == old(self).last_chrom,
                self.last_start == old(self).last_start,
                forall|u: int| t <= u < n ==> (#[trigger] self.sequences@[u]) == old(
                    self,
                ).sequences@[u],
                forall|u: int| 0 <= u < t ==> {
                    &&& (#[trigger] self.sequences@[u]).0 == old(self).sequences@[u].0
                    &&& self.sequences@[u].1.bins == old(self).sequences@[u].1.bins
                    &&& self.sequences@[u].1.linear_index.is_none()
                    &&& self.sequences@[u].1.spec_last_start() == old(
                        self,
                    ).sequences@[u].1.spec_last_start()
                },
            decreases n - t,
        {
            self.sequences[t].1.linear_index = None;
            t = t + 1;
        }
        self.bins.linear_shift = None;
        proof {
            assert forall|u: int| 0 <= u < n implies (#[trigger] self.sequences@[u]).1.wf(
                &self.bins,
            ) by {
                lemma_seq_wf_linear_removed(
                    &old(self).sequences@[u].1,
                    &self.sequences@[u].1,
                    &old(self).bins,
                    &self.bins,
                );
            }
            crate::binning::lemma_wf_without_linear(&old(self).bins, &self.bins);
            assert forall|t1: int, t2: int|
                0 <= t1 < t2 < self.sequences@.len() implies (#[trigger] self.sequences@[t1]).0@
                != (#[trigger] self.sequences@[t2]).0@ by {
                assert(self.sequences@[t1].0 == old(self).sequences@[t1].0);
                assert(self.sequences@[t2].0 == old(self).sequences@[t2].0);
            }
        }
    }
}

/// Removing the linear index, and clearing the schema's linear shift,
/// keeps a per-sequence index well-formed.
proof fn lemma_seq_wf_linear_removed(
    pre: &SequenceIndex,
    post: &SequenceIndex,
    a: &HierarchicalBins,
    b: &HierarchicalBins,
)
    requires
        pre.wf(a),
        a.wf(),
        post.bins == pre.bins,
        post.linear_index.is_none(),
        post.spec_last_start() == pre.spec_last_start(),
        b.base_shift == a.base_shift,
        b.level_shift == a.level_shift,
        b.num_levels == a.num_levels,
        b.levels == a.levels,
        b.bin_offsets == a.bin_offsets,
    ensures
        post.wf(b),
{
    assert forall|t: int, i: int|
        #![trigger post.bins@[t].1@[i]]
        0 <= t < post.bins@.len() && 0 <= i < post.bins@[t].1@.len() implies feature_ok(
        post.bins@[t].1@[i],
        post.bins@[t].0,
        post.spec_last_start(),
        b,
    ) by {
        let f = post.bins@[t].1@[i];
        assert(pre.bins@[t].1@[i] == f);
        assert(feature_ok(f, pre.bins@[t].0, pre.spec_last_start(), a));
        lemma_schemes_agree(a, b, f_start_end(f));
    }
    assert(post.wf_features(b));
    assert(post.bins@ == pre.bins@);
    assert(post.wf_keys());
    assert(post.wf_linear_bounds());
}

/// Helper carrying a feature's coordinates.
/// Helper carrying a feature's coordinates.
pub open spec fn f_start_end(f: Feature) -> (u32, u32) {
    (f.start, f.end)
}

/// Two schemes equal in everything but the linear shift assign the same
/// bins and share a ceiling.
proof fn lemma_schemes_agree(a: &HierarchicalBins, b: &HierarchicalBins, se: (u32, u32))
    requires
        a.wf(),
        b.base_shift == a.base_shift,
        b.level_shift == a.level_shift,
        b.num_levels == a.num_levels,
        b.levels == a.levels,
        b.bin_offsets == a.bin_offsets,
        se.0 < se.1,
        ((se.1 - 1) as u32 as nat) < a.coord_ceiling(),
    ensures
        b.coord_ceiling() == a.coord_ceiling(),
        b.spec_region_to_bin(se.0, se.1) == a.spec_region_to_bin(se.0, se.1),
{
    lemma_levels_agree(a, b, se.0, se.1, 0);
}

/// Level by level, two schemes with the same shifts pick the same level.
proof fn lemma_levels_agree(a: &HierarchicalBins, b: &HierarchicalBins, s: u32, e: u32, j: int)
    requires
        a.wf(),
        b.base_shift == a.base_shift,
        b.level_shift == a.level_shift,
        b.num_levels == a.num_levels,
        0 <= j <= a.num_levels,
    ensures
        b.level_for(s, e, j) == a.level_for(s, e, j),
        b.level_for(s, e, j) < a.num_levels ==> b.pos_at(s, b.level_for(s, e, j)) == a.pos_at(
            s,
            a.level_for(s, e, j),
        ),
        b.offset_at(a.level_for(s, e, j)) == a.offset_at(a.level_for(s, e, j)),
    decreases a.num_levels - j,
{
    if j < a.num_levels {
        lemma_levels_agree(a, b, s, e, j + 1);
    }
}



impl BinningIndex {
    /// What `find_overlapping` returns for a name and range.
    pub open spec fn spec_find_overlapping(&self, name: Seq<u8>, q0: u32, q1: u32) -> Seq<
        (u64, u64),
    > {
        match seq_lookup(self.sequences@, name) {
            Some(s) => s.spec_find(&self.bins, q0, q1),
            None => Seq::empty(),
        }
    }

    /// Whether adding `(chrom, start)` violates the session's sort order:
    /// either it returns to a sequence that was already left, or it moves
    /// backwards within the current sequence.  Sequences may first appear
    /// in any name order — only returning to an abandoned one is refused,
    /// the strictest of the design's variants; a lexicographic-name test
    /// would wrongly refuse natural orders such as a ten after a two.
    pub open spec fn spec_add_rejected(&self, name: Seq<u8>, start: u32) -> bool {
        ||| (!(self.last_chrom matches Some(c) && c@ == name) && seq_contains(
            self.sequences@,
            name,
        ))
        ||| (seq_lookup(self.sequences@, name) matches Some(s) && s.spec_last_start() matches Some(
            p,
        ) && start < p)
    }

    /// Add a feature for a sequence, creating that sequence's index on
    /// first use.  Fails, leaving the index unchanged, when the addition
    /// violates the sorted-append order; succeeds otherwise.
    pub fn add_feature(
        &mut self,
        chrom: &str,
        start: u32,
        end: u32,
        index: u64,
        length: u64,
    ) -> (r: Result<(), HgIndexError>)
        requires
            old(self).wf(),
            start < end,
            ((end - 1) as u32 as nat) < old(self).bins.coord_ceiling(),
        ensures
            final(self).wf(),
            final(self).bins == old(self).bins,
            r.is_err() == old(self).spec_add_rejected(chrom.spec_bytes(), start),
            match r {
                Result::Err(e) => {
                    &&& final(self).sequences@ == old(self).sequences@
                    &&& final(self).last_chrom == old(self).last_chrom
                    &&& final(self).last_start == old(self).last_start
                    &&& (e matches HgIndexError::UnsortedFeatures {
                        chrom: ec,
                        bin_id,
                        previous,
                        current,
                    } && {
                        &&& ec@ == chrom.spec_bytes()
                        &&& bin_id == 0
                        &&& current == start
                        &&& (seq_lookup(old(self).sequences@, chrom.spec_bytes()) matches Some(s)
                            && previous == (match s.spec_last_start() {
                            Some(p) => p,
                            None => 0,
                        }))
                    })
                },
                Result::Ok(_) => {
                    let name = chrom.spec_bytes();
                    let bid = old(self).bins.spec_region_to_bin(start, end) as u32;
                    let f = Feature { start, end, index, length };
                    &&& (final(self).last_chrom matches Some(c) && c@ == name)
                    &&& final(self).last_start == Some(start)
                    &&& (forall|n2: Seq<u8>|
                        n2 != name ==> seq_lookup(final(self).sequences@, n2) == seq_lookup(
                            old(self).sequences@,
                            n2,
                        ))
                    &&& (seq_lookup(final(self).sequences@, name) matches Some(s2) && {
                        &&& s2.spec_last_start() == Some(start)
                        &&& (match seq_lookup(old(self).sequences@, name) {
                            Some(s1) => linear_opt_updated(
                                s1.linear_index,
                                s2.linear_index,
                                start,
                                end,
                                index,
                            ),
                            None => (match old(self).bins.linear_shift {
                                Some(sh) => s2.linear_index matches Some(li1)
                                    && linear_fresh_updated(sh, li1, start, end, index),
                                None => s2.linear_index is None,
                            }),
                        })
                        &&& (match seq_lookup(old(self).sequences@, name) {
                            Some(s1) => {
                                &&& assoc_lookup(s2.bins@, bid) == assoc_lookup(
                                    s1.bins@,
                                    bid,
                                ).push(f)
                                &&& (forall|b2: u32|
                                    b2 != bid ==> assoc_lookup(s2.bins@, b2) == assoc_lookup(
                                        s1.bins@,
                                        b2,
                                    ))
                            },
                            None => {
                                &&& assoc_lookup(s2.bins@, bid) == seq![f]
                                &&& (forall|b2: u32|
                                    b2 != bid ==> assoc_lookup(s2.bins@, b2) == Seq::<
                                        Feature,
                                    >::empty())
                            },
                        })
                    })
                },
            },
    {
        let name = chrom.as_bytes();
        let same_chrom = match &self.last_chrom {
            Some(c) => bytes_eq(c.as_slice(), name),
            None => false,
        };
        let pos = self.find_seq_pos(name);
        let n = self.sequences.len();
        if pos < n {
            proof {
                lemma_seq_lookup_at(self.sequences@, name@, pos as int);
            }
            if !same_chrom {
                // Returning to a sequence that was already left.
                let prev = match &self.sequences[pos].1.last_start {
                    Some(p) => *p,
                    None => 0,
                };
                return Err(
                    HgIndexError::UnsortedFeatures {
                        chrom: slice_to_vec_u8(name),
                        bin_id: 0,
                        previous: prev,
                        current: start,
                    },
                );
            }
            let ghost olds = self.sequences@;
            let ghost s1 = self.sequences@[pos as int].1;
            let result = self.sequences[pos].1.add_feature(start, end, index, &self.bins, length);
            match result {
                Result::Ok(_) => {
                    proof {
                        lemma_seq_lookup_update(olds, self.sequences@, pos as int, name@);
                        assert forall|u: int| 0 <= u < self.sequences@.len() implies (
                        #[trigger] self.sequences@[u]).1.wf(&self.bins) by {
                            if u != pos {
                                assert(self.sequences@[u] == olds[u]);
                            }
                        }
                    }
                    self.last_chrom = Some(slice_to_vec_u8(name));
                    self.last_start = Some(start);
                    Ok(())
                },
                Result::Err(e) => {
                    proof {
                        assert(self.sequences@.len() == olds.len());
                        assert(self.sequences@[pos as int].1 == s1);
                        assert(self.sequences@[pos as int].0 == olds[pos as int].0);
                        assert(self.sequences@[pos as int] == olds[pos as int]);
                        assert forall|u: int| 0 <= u < olds.len() implies self.sequences@[u]
                            == olds[u] by {}
                        assert(self.sequences@ =~= olds);
                    }
                    // Name the sequence in the error; the per-sequence
                    // index does not know it.
                    match e {
                        HgIndexError::UnsortedFeatures { previous, current, .. } => Err(
                            HgIndexError::UnsortedFeatures {
                                chrom: slice_to_vec_u8(name),
                                bin_id: 0,
                                previous,
                                current,
                            },
                        ),
                        _ => {
                            proof {
                                assert(false);
                            }
                            Err(e)
                        },
                    }
                },
            }
        } else {
            proof {
                lemma_seq_lookup_absent(self.sequences@, name@);
            }
            let mut seq_index = SequenceIndex::new(&self.bins);
            let result = seq_index.add_feature(start, end, index, &self.bins, length);
            match result {
                Result::Ok(_) => {
                    let ghost olds = self.sequences@;
                    let ghost gseq = seq_index;
                    let key = slice_to_vec_u8(name);
                    self.sequences.push((key, seq_index));
                    proof {
                        lemma_seq_lookup_push(olds, (key, seq_index));
                        lemma_assoc_absent(Seq::<(u32, Vec<Feature>)>::empty(), 0);
                        assert forall|b2: u32|
                            b2 != old(self).bins.spec_region_to_bin(start, end) as u32 implies assoc_lookup(
                            seq_index.bins@,
                            b2,
                        ) == Seq::<Feature>::empty() by {
                            lemma_empty_lookup(b2);
                        }
                        assert(assoc_lookup(
                            seq_index.bins@,
                            old(self).bins.spec_region_to_bin(start, end) as u32,
                        ) =~= seq![Feature { start, end, index, length }]);
                        assert forall|u: int| 0 <= u < self.sequences@.len() implies (
                        #[trigger] self.sequences@[u]).1.wf(&self.bins) by {
                            if u < olds.len() {
                                assert(self.sequences@[u] == olds[u]);
                            }
                        }
                        assert forall|t1: int, t2: int|
                            0 <= t1 < t2 < self.sequences@.len() implies (
                        #[trigger] self.sequences@[t1]).0@ != (#[trigger] self.sequences@[t2]).0@ by {
                            if t2 == olds.len() {
                                assert(self.sequences@[t1] == olds[t1]);
                            } else {
                                assert(self.sequences@[t1] == olds[t1]);
                                assert(self.sequences@[t2] == olds[t2]);
                            }
                        }
                    }
                    proof {
                        match gseq.linear_index {
                            Some(li1) => {
                                lemma_pow2_pos(li1.spec_shift() as nat);
                                vstd::arithmetic::div_mod::lemma_div_pos_is_pos(
                                    (end - 1) as int,
                                    pow2(li1.spec_shift() as nat) as int,
                                );
                                vstd::arithmetic::div_mod::lemma_div_pos_is_pos(
                                    start as int,
                                    pow2(li1.spec_shift() as nat) as int,
                                );
                            },
                            None => {},
                        }
                    }
                    self.last_chrom = Some(slice_to_vec_u8(name));
                    self.last_start = Some(start);
                    Ok(())
                },
                Result::Err(e) => {
                    // A fresh sequence index accepts any first feature.
                    proof {
                        assert(false);
                    }
                    Err(e)
                },
            }
        }
    }

    /// Return the `(offset, length)` pairs of all stored ranges of a
    /// sequence that overlap the supplied range.
    pub fn find_overlapping(&self, chrom: &str, start: u32, end: u32) -> (r: Vec<(u64, u64)>)
        requires
            self.query_wf(),
            start < end,
        ensures
            r@ == self.spec_find_overlapping(chrom.spec_bytes(), start, end),
    {
        let name = chrom.as_bytes();
        let pos = self.find_seq_pos(name);
        if pos < self.sequences.len() {
            proof {
                lemma_seq_lookup_at(self.sequences@, name@, pos as int);
            }
            self.sequences[pos].1.find_overlapping(&self.bins, start, end)
        } else {
            proof {
                lemma_seq_lookup_absent(self.sequences@, name@);
            }
            Vec::new()
        }
    }
}

/// A fully well-formed index satisfies what the query path needs.
pub proof fn lemma_wf_implies_query_wf(ix: &BinningIndex)
    requires
        ix.wf(),
    ensures
        ix.query_wf(),
{
    assert forall|t: int| 0 <= t < ix.sequences@.len() implies (
    #[trigger] ix.sequences@[t]).1.linear_wf() by {
        assert(ix.sequences@[t].1.wf(&ix.bins));
    }
}

/// An empty association list holds nothing.
proof fn lemma_empty_lookup(key: u32)
    ensures
        assoc_lookup(Seq::<(u32, Vec<Feature>)>::empty(), key) == Seq::<Feature>::empty(),
        !assoc_contains(Seq::<(u32, Vec<Feature>)>::empty(), key),
{
}

/// Copy a byte slice into an owned vector.
pub fn slice_to_vec_u8(s: &[u8]) -> (r: Vec<u8>)
    ensures
        r@ == s@,
{
    vstd::slice::slice_to_vec(s)
}

impl Default for BinningIndex {
    /// The default index uses the tabix-compatible schema.
    fn default() -> (r: Self)
        ensures
            r.wf(),
            r.bins.schema == BinningSchema::Tabix,
            r.bins.base_shift == 14,
            r.bins.level_shift == 3,
            r.bins.num_levels == 6,
            r.bins.linear_shift == Some(14u32),
            r.sequences@.len() == 0,
            r.last_chrom.is_none(),
            r.last_start.is_none(),
    {
        Self::new(&BinningSchema::Tabix)
    }
}



/// Number of occurrences of a pair in a result sequence.
pub open spec fn count_in(s: Seq<(u64, u64)>, x: (u64, u64)) -> nat
    decreases s.len(),
{
    if s.len() == 0 {
        0
    } else {
        count_in(s.drop_last(), x) + (if s.last() == x {
            1nat
        } else {
            0nat
        })
    }
}

/// Counting distributes over concatenation.
proof fn lemma_count_concat(a: Seq<(u64, u64)>, b: Seq<(u64, u64)>, x: (u64, u64))
    ensures
        count_in(a + b, x) == count_in(a, x) + count_in(b, x),
    decreases b.len(),
{
    if b.len() == 0 {
        assert(a + b =~= a);
    } else {
        lemma_count_concat(a, b.drop_last(), x);
        assert((a + b).drop_last() =~= a + b.drop_last());
        assert((a + b).last() == b.last());
    }
}

/// A positive count names a position.
proof fn lemma_count_pos(s: Seq<(u64, u64)>, x: (u64, u64))
    requires
        count_in(s, x) > 0,
    ensures
        exists|k: int| 0 <= k < s.len() && s[k] == x,
    decreases s.len(),
{
    if s.last() == x {
        assert(s[s.len() - 1] == x);
    } else {
        lemma_count_pos(s.drop_last(), x);
        let k = choose|k: int| 0 <= k < s.drop_last().len() && s.drop_last()[k] == x;
        assert(s[k] == x);
    }
}

/// Number of matching features of a list whose pair is `x`.
pub open spec fn count_matching(fs: Seq<Feature>, q0: u32, q1: u32, m: u64, x: (u64, u64)) -> nat
    decreases fs.len(),
{
    if fs.len() == 0 {
        0
    } else {
        count_matching(fs.drop_last(), q0, q1, m, x) + (if feature_matches(fs.last(), q0, q1, m)
            && (fs.last().index, fs.last().length) == x {
            1nat
        } else {
            0nat
        })
    }
}

/// A bin's matches list a pair exactly as often as matching features
/// carry it.
proof fn lemma_matches_of_count(fs: Seq<Feature>, q0: u32, q1: u32, m: u64, x: (u64, u64))
    ensures
        count_in(matches_of(fs, q0, q1, m), x) == count_matching(fs, q0, q1, m, x),
    decreases fs.len(),
{
    if fs.len() > 0 {
        lemma_matches_of_count(fs.drop_last(), q0, q1, m, x);
        let tail: Seq<(u64, u64)> = if feature_matches(fs.last(), q0, q1, m) {
            seq![(fs.last().index, fs.last().length)]
        } else {
            Seq::empty()
        };
        lemma_count_concat(matches_of(fs.drop_last(), q0, q1, m), tail, x);
        if feature_matches(fs.last(), q0, q1, m) {
            assert(tail.drop_last() =~= Seq::<(u64, u64)>::empty());
            assert(count_in(tail.drop_last(), x) == 0);
            assert(count_in(tail, x) == (if (fs.last().index, fs.last().length) == x {
                1nat
            } else {
                0nat
            }));
        } else {
            assert(count_in(tail, x) == 0);
        }
    }
}

/// A positive matching count names a feature position.
proof fn lemma_count_matching_pos(fs: Seq<Feature>, q0: u32, q1: u32, m: u64, x: (u64, u64))
    requires
        count_matching(fs, q0, q1, m, x) > 0,
    ensures
        exists|i: int| 0 <= i < fs.len() && (#[trigger] fs[i]).index == x.0,
    decreases fs.len(),
{
    if feature_matches(fs.last(), q0, q1, m) && (fs.last().index, fs.last().length) == x {
        assert(fs[fs.len() - 1].index == x.0);
    } else {
        lemma_count_matching_pos(fs.drop_last(), q0, q1, m, x);
        let i = choose|i: int| 0 <= i < fs.drop_last().len() && (#[trigger] fs.drop_last()[i]).index
            == x.0;
        assert(fs[i].index == x.0);
    }
}

/// With distinct offsets inside a list, a pair matches at most once.
proof fn lemma_count_matching_le1(fs: Seq<Feature>, q0: u32, q1: u32, m: u64, x: (u64, u64))
    requires
        forall|i1: int, i2: int| 0 <= i1 < i2 < fs.len() ==> (#[trigger] fs[i1]).index != (
        #[trigger] fs[i2]).index,
    ensures
        count_matching(fs, q0, q1, m, x) <= 1,
    decreases fs.len(),
{
    if fs.len() > 0 {
        assert forall|i1: int, i2: int| 0 <= i1 < i2 < fs.drop_last().len() implies (
        #[trigger] fs.drop_last()[i1]).index != (#[trigger] fs.drop_last()[i2]).index by {
            assert(fs.drop_last()[i1] == fs[i1]);
            assert(fs.drop_last()[i2] == fs[i2]);
        }
        lemma_count_matching_le1(fs.drop_last(), q0, q1, m, x);
        if feature_matches(fs.last(), q0, q1, m) && (fs.last().index, fs.last().length) == x {
            if count_matching(fs.drop_last(), q0, q1, m, x) > 0 {
                lemma_count_matching_pos(fs.drop_last(), q0, q1, m, x);
                let i = choose|i: int| 0 <= i < fs.drop_last().len() && (
                #[trigger] fs.drop_last()[i]).index == x.0;
                assert(fs[i].index == x.0);
                assert(fs[fs.len() - 1].index == x.0);
            }
        }
    }
}

/// With distinct offsets across all bins and distinct candidate ids, a
/// pair is collected at most once over the whole candidate walk.
proof fn lemma_matches_in_bins_le1(
    seq: &SequenceIndex,
    ids: Seq<u32>,
    q0: u32,
    q1: u32,
    m: u64,
    x: (u64, u64),
)
    requires
        offsets_distinct(*seq),
        crate::binning::seq_distinct(ids),
    ensures
        count_in(matches_in_bins(seq.bins@, ids, q0, q1, m), x) <= 1,
    decreases ids.len(),
{
    if ids.len() > 0 {
        assert forall|i1: int, i2: int| 0 <= i1 < i2 < ids.drop_last().len() implies ids.drop_last()[i1]
            != ids.drop_last()[i2] by {
            assert(ids.drop_last()[i1] == ids[i1]);
            assert(ids.drop_last()[i2] == ids[i2]);
        }
        lemma_matches_in_bins_le1(seq, ids.drop_last(), q0, q1, m, x);
        let left = matches_in_bins(seq.bins@, ids.drop_last(), q0, q1, m);
        let lastfs = assoc_lookup(seq.bins@, ids.last());
        let right = matches_of(lastfs, q0, q1, m);
        lemma_count_concat(left, right, x);
        lemma_matches_of_count(lastfs, q0, q1, m, x);
        assert forall|i1: int, i2: int| 0 <= i1 < i2 < lastfs.len() implies (
        #[trigger] lastfs[i1]).index != (#[trigger] lastfs[i2]).index by {
            assert(stored_at(seq, ids.last(), i1) == lastfs[i1]);
            assert(stored_at(seq, ids.last(), i2) == lastfs[i2]);
            assert(valid_pos(seq, ids.last(), i1) && valid_pos(seq, ids.last(), i2));
        }
        lemma_count_matching_le1(lastfs, q0, q1, m, x);
        if count_matching(lastfs, q0, q1, m, x) > 0 && count_in(left, x) > 0 {
            // The pair would have to live in two different bins, against
            // the distinct offsets.
            lemma_count_matching_pos(lastfs, q0, q1, m, x);
            let i2 = choose|i: int| 0 <= i < lastfs.len() && (#[trigger] lastfs[i]).index == x.0;
            lemma_count_pos(left, x);
            let k = choose|k: int| 0 <= k < left.len() && left[k] == x;
            lemma_matches_in_bins_sound(seq.bins@, ids.drop_last(), q0, q1, m, k);
            let (p, i1): (int, int) = choose|p: int, i: int|
                #![trigger assoc_lookup(seq.bins@, ids.drop_last()[p])[i]]
                0 <= p < ids.drop_last().len() && 0 <= i < assoc_lookup(
                    seq.bins@,
                    ids.drop_last()[p],
                ).len() && feature_matches(assoc_lookup(seq.bins@, ids.drop_last()[p])[i], q0, q1, m)
                    && left[k] == (
                    assoc_lookup(seq.bins@, ids.drop_last()[p])[i].index,
                    assoc_lookup(seq.bins@, ids.drop_last()[p])[i].length,
                );
            let b1 = ids.drop_last()[p];
            assert(b1 == ids[p]);
            assert(b1 != ids.last()) by {
                assert(ids[p] != ids[ids.len() - 1]);
            }
            assert(valid_pos(seq, b1, i1));
            assert(valid_pos(seq, ids.last(), i2));
            assert(stored_at(seq, b1, i1).index == x.0);
            assert(stored_at(seq, ids.last(), i2).index == x.0);
            assert(false);
        }
    }
}

/// Uniqueness: with distinct offsets — as the record store guarantees,
/// offsets being file positions — no `(offset, length)` pair is reported
/// twice for one query.
pub proof fn lemma_query_uniqueness(
    seq: &SequenceIndex,
    hb: &HierarchicalBins,
    q0: u32,
    q1: u32,
    x: (u64, u64),
)
    requires
        hb.wf(),
        q0 < q1,
        offsets_distinct(*seq),
    ensures
        count_in(seq.spec_find(hb, q0, q1), x) <= 1,
{
    if (q0 as nat) >= hb.coord_ceiling() {
    } else {
        let q1c = clamped_end(hb, q1);
        assert(q0 < q1c && ((q1c - 1) as u32 as nat) < hb.coord_ceiling());
        crate::binning::lemma_region_to_bins_distinct(hb, q0, q1c);
        lemma_matches_in_bins_le1(
            seq,
            hb.spec_region_to_bins(q0, q1c),
            q0,
            q1,
            seq.spec_min_offset(q0),
            x,
        );
    }
}

} // verus!
