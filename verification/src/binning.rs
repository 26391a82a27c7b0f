//! The hierarchical binning scheme: pure functions that map a coordinate
//! range to the unique smallest bin containing it, and a query range to the
//! set of bins that could hold overlapping ranges.
//!
//! Levels are numbered here from the finest (level index 0, smallest bins)
//! to the coarsest.  Every bin at every level has a globally unique `u32`
//! id: level `j` occupies the id range
//! `[bin_offsets[j], bin_offsets[j] + size_at(j))`, and those ranges tile
//! `[0, total_bins())` without overlap.

use vstd::prelude::*;
use vstd::arithmetic::power2::{pow2, lemma_pow2_adds, lemma_pow2_pos, lemma2_to64, lemma_pow2_strictly_increases};
use vstd::arithmetic::div_mod::{lemma_div_is_ordered, lemma_fundamental_div_mod, lemma_div_denominator, lemma_div_pos_is_pos, lemma_multiply_divide_lt};
use vstd::bits::{lemma_u32_shr_is_div, lemma_u32_shl_is_mul, lemma_u32_pow2_no_overflow};

verus! {

/// The fixed menu of binning parameterizations.
#[derive(Clone, Copy, Debug, PartialEq, Eq, Structural)]
pub enum BinningSchema {
    Tabix,
    TabixNoLinear,
    Ucsc,
    UcscNoLinear,
    Dense,
    Sparse,
}

impl Default for BinningSchema {
    /// The default schema is `Tabix`.
    fn default() -> (r: Self)
        ensures
            r == BinningSchema::Tabix,
    {
        BinningSchema::Tabix
    }
}

/// Sum of the first `k` entries of `s`.
pub open spec fn sum_prefix(s: Seq<u32>, k: int) -> nat
    decreases k,
{
    if k <= 0 {
        0
    } else {
        (sum_prefix(s, k - 1) + s[k - 1]) as nat
    }
}

/// A prefix sum never exceeds the whole sum.
proof fn lemma_sum_prefix_le(s: Seq<u32>, k1: int, k2: int)
    requires
        0 <= k1 <= k2 <= s.len(),
    ensures
        sum_prefix(s, k1) <= sum_prefix(s, k2),
    decreases k2,
{
    if k1 < k2 {
        lemma_sum_prefix_le(s, k1, k2 - 1);
    }
}

/// Calculate the number of bins at each level, coarsest level first:
/// level `i` (from the coarsest) has `2^(next_shift * i)` bins.
pub fn calc_level_sizes(next_shift: u32, nlevels: usize) -> (r: Vec<u32>)
    requires
        1 <= next_shift < 32,
        (nlevels as int - 1) * (next_shift as int) < 32,
    ensures
        r.len() == nlevels,
        forall|i: int| 0 <= i < nlevels ==> r[i] == pow2(next_shift as nat * i as nat),
{
    proof {
        assert(nlevels <= 32) by (nonlinear_arith)
            requires
                1 <= next_shift,
                (nlevels as int - 1) * (next_shift as int) < 32,
                0 <= nlevels,
        ;
    }
    let mut level_bins: Vec<u32> = Vec::with_capacity(nlevels);
    let mut i: usize = 0;
    while i < nlevels
        invariant
            i <= nlevels,
            nlevels <= 32,
            1 <= next_shift < 32,
            (nlevels as int - 1) * (next_shift as int) < 32,
            level_bins.len() == i,
            forall|t: int| 0 <= t < i ==> level_bins[t] == pow2(next_shift as nat * t as nat),
        decreases nlevels - i,
    {
        proof {
            assert((next_shift as int) * (i as int) < 32) by (nonlinear_arith)
                requires
                    i < nlevels,
                    0 <= i,
                    1 <= next_shift,
                    (nlevels as int - 1) * (next_shift as int) < 32,
            ;
            lemma_u32_pow2_no_overflow((next_shift as nat) * (i as nat));
        }
        let shift_amt: u32 = next_shift * (i as u32);
        proof {
            lemma_u32_shl_is_mul(1u32, shift_amt);
        }
        let level: u32 = 1u32 << shift_amt;
        level_bins.push(level);
        i = i + 1;
    }
    level_bins
}

/// Calculate the bin id offsets for these level sizes: the reversed
/// exclusive cumulative sum, so that `r[j]` (with `j = 0` the finest level)
/// is the total number of bins at all coarser levels.
pub fn calc_offsets_from_levels(levels: &Vec<u32>) -> (r: Vec<u32>)
    requires
        sum_prefix(levels@, levels@.len() as int) <= u32::MAX,
    ensures
        r.len() == levels.len(),
        forall|j: int| 0 <= j < r.len() ==> r[j] == sum_prefix(levels@, levels@.len() - 1 - j),
{
    let n = levels.len();
    let mut cumulative: Vec<u32> = Vec::with_capacity(n);
    let mut sum: u32 = 0;
    let mut i: usize = 0;
    while i < n
        invariant
            i <= n,
            n == levels.len(),
            cumulative.len() == i,
            sum == sum_prefix(levels@, i as int),
            sum_prefix(levels@, n as int) <= u32::MAX,
            forall|t: int| 0 <= t < i ==> cumulative[t] == sum_prefix(levels@, t),
        decreases n - i,
    {
        cumulative.push(sum);
        proof {
            lemma_sum_prefix_le(levels@, i + 1, n as int);
        }
        sum = sum + levels[i];
        i = i + 1;
    }
    // Reverse, so that the finest level comes first.
    let mut offsets: Vec<u32> = Vec::with_capacity(n);
    let mut j: usize = 0;
    while j < n
        invariant
            j <= n,
            n == levels.len(),
            cumulative.len() == n,
            offsets.len() == j,
            forall|t: int| 0 <= t < n ==> cumulative[t] == sum_prefix(levels@, t),
            forall|t: int| 0 <= t < j ==> offsets[t] == sum_prefix(levels@, n - 1 - t),
        decreases n - j,
    {
        offsets.push(cumulative[n - 1 - j]);
        j = j + 1;
    }
    offsets
}

/// Calculate the bin offsets for `nlevels` levels scaling by `next_shift`
/// bits per level.
pub fn calc_offsets(next_shift: u32, nlevels: usize) -> (r: Vec<u32>)
    requires
        1 <= next_shift < 32,
        (nlevels as int - 1) * (next_shift as int) < 32,
    ensures
        r.len() == nlevels,
        forall|j: int| 0 <= j < r.len() ==> r[j] == sum_of_sizes(next_shift as nat, nlevels as int - 1 - j),
{
    let level_bins = calc_level_sizes(next_shift, nlevels);
    proof {
        let ls = next_shift as nat;
        let n = nlevels as int;
        lemma_sum_of_sizes_eq_prefix(level_bins@, ls, n);
        lemma_sum_of_sizes_bound(ls, n);
        if n >= 1 {
            // sum < 2 * 2^(ls*(n-1)) = 2^(ls*(n-1)+1) <= 2^32
            let a = ls * (n - 1) as nat;
            assert(a < 32) by (nonlinear_arith)
                requires (nlevels as int - 1) * (next_shift as int) < 32, ls == next_shift as nat, n == nlevels as int, n >= 1, a == ls * (n - 1) as nat,
            ;
            assert(2 * pow2(a) == pow2(a + 1)) by {
                lemma_pow2_adds(a, 1);
                lemma2_to64();
            }
            lemma_pow2_le_max32(a + 1);
            assert(pow2(a + 1) <= 0x1_0000_0000);
        }
        assert forall|j: int| 0 <= j < nlevels implies sum_prefix(level_bins@, nlevels as int - 1 - j) == #[trigger] sum_of_sizes(next_shift as nat, nlevels as int - 1 - j) by {
            lemma_sum_of_sizes_eq_prefix(level_bins@, next_shift as nat, nlevels as int - 1 - j);
        }
    }
    calc_offsets_from_levels(&level_bins)
}

/// Sum of the bin counts of the `k` coarsest levels:
/// `2^0 + 2^ls + ... + 2^(ls*(k-1))`.
pub open spec fn sum_of_sizes(ls: nat, k: int) -> nat
    decreases k,
{
    if k <= 0 {
        0
    } else {
        sum_of_sizes(ls, k - 1) + pow2(ls * (k - 1) as nat)
    }
}

/// `sum_of_sizes` agrees with a prefix sum over a vector of level sizes.
proof fn lemma_sum_of_sizes_eq_prefix(s: Seq<u32>, ls: nat, k: int)
    requires
        0 <= k <= s.len(),
        forall|i: int| 0 <= i < s.len() ==> s[i] == pow2(ls * i as nat),
    ensures
        sum_prefix(s, k) == sum_of_sizes(ls, k),
    decreases k,
{
    if k > 0 {
        lemma_sum_of_sizes_eq_prefix(s, ls, k - 1);
    }
}

/// The geometric sum of level sizes is dominated by twice the largest term:
/// `sum_of_sizes(ls, k) <= 2 * 2^(ls*(k-1)) - 1` for `k >= 1, ls >= 1`.
proof fn lemma_sum_of_sizes_bound(ls: nat, k: int)
    requires
        1 <= ls,
        0 <= k,
    ensures
        k == 0 ==> sum_of_sizes(ls, k) == 0,
        k >= 1 ==> sum_of_sizes(ls, k) < 2 * pow2(ls * (k - 1) as nat),
    decreases k,
{
    if k >= 1 {
        lemma_sum_of_sizes_bound(ls, k - 1);
        if k == 1 {
            assert(pow2(0) == 1) by { lemma2_to64(); };
            assert(ls * (k - 1) as nat == 0) by (nonlinear_arith)
                requires k == 1,
            ;
            assert(sum_of_sizes(ls, 0) == 0);
            assert(sum_of_sizes(ls, 1) == sum_of_sizes(ls, 0) + pow2(ls * 0));
            assert(sum_of_sizes(ls, k) < 2 * pow2(ls * (k - 1) as nat));
        } else {
            // sum(k) = sum(k-1) + p2(ls(k-1)) < 2*p2(ls(k-2)) + p2(ls(k-1))
            //        <= p2(ls(k-1)) + p2(ls(k-1)) = 2*p2(ls(k-1))
            let a = ls * (k - 2) as nat;
            let b = ls * (k - 1) as nat;
            assert(a + ls == b) by (nonlinear_arith)
                requires k >= 2, ls >= 1, a == ls * (k - 2) as nat, b == ls * (k - 1) as nat,
            ;
            lemma_pow2_adds(a, ls);
            lemma_pow2_pos(a);
            assert(pow2(ls) >= 2) by {
                lemma_pow2_strictly_increases(0, ls);
                lemma2_to64();
            }
            assert(2 * pow2(a) <= pow2(a) * pow2(ls)) by (nonlinear_arith)
                requires pow2(ls) >= 2, pow2(a) >= 1,
            ;
            assert(sum_of_sizes(ls, k) == sum_of_sizes(ls, k - 1) + pow2(b));
            assert(sum_of_sizes(ls, k - 1) < 2 * pow2(a));
            assert(2 * pow2(a) <= pow2(b));
            assert(sum_of_sizes(ls, k) < 2 * pow2(b));
            assert(sum_of_sizes(ls, k) < 2 * pow2(ls * (k - 1) as nat));
        }
    }
}

/// `2^e <= u32::MAX + 1` when the exponent is at most 32.
pub proof fn lemma_pow2_le_max32(e: nat)
    requires
        e <= 32,
    ensures
        pow2(e) <= 0x1_0000_0000,
        e < 32 ==> pow2(e) <= u32::MAX,
    decreases 32 - e,
{
    lemma2_to64();
    if e < 32 {
        lemma_pow2_strictly_increases(e, 32);
    }
}

/// A hierarchical binning parameterization: the bin widths of every level,
/// and the id offset that keeps every level's bin ids disjoint.
#[derive(Clone, Debug, PartialEq)]
pub struct HierarchicalBins {
    /// The schema this parameterization was derived from.
    pub schema: BinningSchema,
    /// Log2 of the width of the finest (smallest) bins.
    pub base_shift: u32,
    /// Log2 of the width ratio between consecutive levels.
    pub level_shift: u32,
    /// Number of bin levels, the finest included.
    pub num_levels: usize,
    /// Number of bins at each level, coarsest level first.
    pub levels: Vec<u32>,
    /// Bin id offset of each level, finest level first.
    pub bin_offsets: Vec<u32>,
    /// Log2 of the window width of the optional linear index.
    pub linear_shift: Option<u32>,
}

impl HierarchicalBins {
    /// Coordinate shift of level `j`, counting `j = 0` as the finest level:
    /// a level-`j` bin covers `2^shift_at(j)` coordinates.
    pub open spec fn shift_at(&self, j: int) -> nat {
        self.base_shift as nat + self.level_shift as nat * j as nat
    }

    /// Number of bins at level `j` (`j = 0` the finest level).
    pub open spec fn size_at(&self, j: int) -> nat {
        pow2(self.level_shift as nat * (self.num_levels - 1 - j) as nat)
    }

    /// First bin id of level `j`: the total number of bins at all coarser
    /// levels.
    pub open spec fn offset_at(&self, j: int) -> nat {
        sum_of_sizes(self.level_shift as nat, self.num_levels - 1 - j)
    }

    /// Total number of bin ids over all levels.
    pub open spec fn total_bins(&self) -> nat {
        sum_of_sizes(self.level_shift as nat, self.num_levels as int)
    }

    /// One more than the largest coordinate the scheme can place: the
    /// coordinate span of a single coarsest-level bin.
    pub open spec fn coord_ceiling(&self) -> nat {
        pow2(self.shift_at(self.num_levels - 1))
    }

    /// Well-formedness: the derived tables match the shift parameters, and
    /// every shift stays within machine limits.
    pub open spec fn wf(&self) -> bool {
        &&& 1 <= self.num_levels
        &&& 1 <= self.base_shift < 32
        &&& 1 <= self.level_shift < 32
        &&& (self.num_levels - 1) * (self.level_shift as int) < 32
        &&& self.base_shift as int + (self.num_levels - 1) * (self.level_shift as int) <= 63
        &&& self.levels.len() == self.num_levels
        &&& self.bin_offsets.len() == self.num_levels
        &&& (forall|i: int| 0 <= i < self.num_levels ==> self.levels[i] == pow2(
            self.level_shift as nat * i as nat,
        ))
        &&& (forall|j: int| 0 <= j < self.num_levels ==> self.bin_offsets[j] == self.offset_at(j))
        &&& (self.linear_shift matches Some(s) ==> 1 <= s < 32)
    }

    /// Position of coordinate `x` within level `j`: the index of the
    /// level-`j` bin whose span holds `x`.
    pub open spec fn pos_at(&self, x: u32, j: int) -> nat {
        x as nat / pow2(self.shift_at(j))
    }

    /// Whether `[start, end)` fits inside a single bin of level `j`.
    pub open spec fn fits_level(&self, start: u32, end: u32, j: int) -> bool {
        self.pos_at(start, j) == self.pos_at((end - 1) as u32, j)
    }

    /// The finest level at or above `j` whose bins can hold `[start, end)`
    /// whole; `num_levels` if none can.
    pub open spec fn level_for(&self, start: u32, end: u32, j: int) -> int
        decreases self.num_levels - j,
    {
        if j >= self.num_levels {
            self.num_levels as int
        } else if self.fits_level(start, end, j) {
            j
        } else {
            self.level_for(start, end, j + 1)
        }
    }

    /// The id of the smallest bin that holds `[start, end)` whole.
    pub open spec fn spec_region_to_bin(&self, start: u32, end: u32) -> nat {
        let j = self.level_for(start, end, 0);
        self.offset_at(j) + self.pos_at(start, j)
    }
}

/// The tiling of bin ids: each level's ids start right after the finer
/// level's ids end, so `offset_at` decreases as the level gets coarser, and
/// every level's id range stays below `total_bins()`, which fits in `u32`.
pub proof fn lemma_bin_id_tiling(b: &HierarchicalBins, j: int)
    requires
        b.wf(),
        0 <= j < b.num_levels,
    ensures
        b.offset_at(j) + b.size_at(j) <= b.total_bins(),
        j >= 1 ==> b.offset_at(j - 1) == b.offset_at(j) + b.size_at(j),
        b.total_bins() <= u32::MAX,
        b.size_at(j) >= 1,
{
    let ls = b.level_shift as nat;
    let n = b.num_levels as int;
    lemma_pow2_pos(ls * (n - 1 - j) as nat);
    // offset_at(j) + size_at(j) == sum_of_sizes(ls, n - j) by definition unfolding.
    assert(sum_of_sizes(ls, n - j) == sum_of_sizes(ls, n - j - 1) + pow2(ls * (n - j - 1) as nat));
    // sum_of_sizes is monotone in its length argument.
    lemma_sum_of_sizes_mono(ls, n - j, n);
    // The total fits in u32.
    lemma_sum_of_sizes_bound(ls, n);
    let a = ls * (n - 1) as nat;
    assert(a < 32) by (nonlinear_arith)
        requires
            (n - 1) * (b.level_shift as int) < 32,
            ls == b.level_shift as nat,
            n >= 1,
            a == ls * (n - 1) as nat,
    ;
    assert(2 * pow2(a) == pow2(a + 1)) by {
        lemma_pow2_adds(a, 1);
        lemma2_to64();
    }
    lemma_pow2_le_max32(a + 1);
}

/// `sum_of_sizes` is monotone in the number of levels summed.
proof fn lemma_sum_of_sizes_mono(ls: nat, k1: int, k2: int)
    requires
        0 <= k1 <= k2,
    ensures
        sum_of_sizes(ls, k1) <= sum_of_sizes(ls, k2),
    decreases k2,
{
    if k1 < k2 {
        lemma_sum_of_sizes_mono(ls, k1, k2 - 1);
    }
}

impl HierarchicalBins {
    /// Build a parameterization from explicit shift parameters.
    ///
    /// The shift bound `base_shift + (num_levels - 1) * level_shift <= 63`
    /// is the design's own limit; the other bounds keep every machine-level
    /// `u32` shift in range.
    pub fn new(
        schema_type: BinningSchema,
        base_shift: u32,
        level_shift: u32,
        num_levels: usize,
        linear_shift: Option<u32>,
    ) -> (r: Self)
        requires
            1 <= base_shift < 32,
            1 <= level_shift < 32,
            1 <= num_levels,
            (num_levels - 1) * (level_shift as int) < 32,
            base_shift as int + (num_levels - 1) * (level_shift as int) <= 63,
            linear_shift matches Some(s) ==> 1 <= s < 32,
        ensures
            r.wf(),
            r.schema == schema_type,
            r.base_shift == base_shift,
            r.level_shift == level_shift,
            r.num_levels == num_levels,
            r.linear_shift == linear_shift,
    {
        let levels = calc_level_sizes(level_shift, num_levels);
        proof {
            let ls = level_shift as nat;
            let n = num_levels as int;
            lemma_sum_of_sizes_eq_prefix(levels@, ls, n);
            lemma_sum_of_sizes_bound(ls, n);
            let a = ls * (n - 1) as nat;
            assert(a < 32) by (nonlinear_arith)
                requires
                    (num_levels as int - 1) * (level_shift as int) < 32,
                    ls == level_shift as nat,
                    n == num_levels as int,
                    n >= 1,
                    a == ls * (n - 1) as nat,
            ;
            assert(2 * pow2(a) == pow2(a + 1)) by {
                lemma_pow2_adds(a, 1);
                lemma2_to64();
            }
            lemma_pow2_le_max32(a + 1);
            assert forall|j: int| 0 <= j < n implies sum_prefix(levels@, n - 1 - j) == #[trigger] sum_of_sizes(ls, n - 1 - j) by {
                lemma_sum_of_sizes_eq_prefix(levels@, ls, n - 1 - j);
            }
        }
        let bin_offsets = calc_offsets_from_levels(&levels);
        Self { schema: schema_type, base_shift, level_shift, num_levels, levels, bin_offsets, linear_shift }
    }

    /// The tabix-compatible parameterization: 16 kb finest bins, 6 levels.
    pub fn tabix() -> (r: Self)
        ensures
            r.wf(),
            r.schema == BinningSchema::Tabix,
            r.base_shift == 14,
            r.level_shift == 3,
            r.num_levels == 6,
            r.linear_shift == Some(14u32),
    {
        Self::new(BinningSchema::Tabix, 14, 3, 6, Some(14))
    }

    /// The tabix parameterization without a linear index.
    pub fn tabix_no_linear() -> (r: Self)
        ensures
            r.wf(),
            r.schema == BinningSchema::TabixNoLinear,
            r.base_shift == 14,
            r.level_shift == 3,
            r.num_levels == 6,
            r.linear_shift.is_none(),
    {
        Self::new(BinningSchema::TabixNoLinear, 14, 3, 6, None)
    }

    /// The UCSC genome-browser parameterization: 128 kb finest bins.
    pub fn ucsc() -> (r: Self)
        ensures
            r.wf(),
            r.schema == BinningSchema::Ucsc,
            r.base_shift == 17,
            r.level_shift == 3,
            r.num_levels == 5,
            r.linear_shift == Some(14u32),
    {
        Self::new(BinningSchema::Ucsc, 17, 3, 5, Some(14))
    }

    /// The UCSC parameterization without a linear index.
    pub fn ucsc_no_linear() -> (r: Self)
        ensures
            r.wf(),
            r.schema == BinningSchema::UcscNoLinear,
            r.base_shift == 17,
            r.level_shift == 3,
            r.num_levels == 5,
            r.linear_shift.is_none(),
    {
        Self::new(BinningSchema::UcscNoLinear, 17, 3, 5, None)
    }

    /// A deep hierarchy for dense data with many small features.
    pub fn dense() -> (r: Self)
        ensures
            r.wf(),
            r.schema == BinningSchema::Dense,
            r.base_shift == 14,
            r.level_shift == 3,
            r.num_levels == 10,
            r.linear_shift == Some(8u32),
    {
        Self::new(BinningSchema::Dense, 14, 3, 10, Some(8))
    }

    /// A shallow hierarchy for sparse data with large features.
    pub fn sparse() -> (r: Self)
        ensures
            r.wf(),
            r.schema == BinningSchema::Sparse,
            r.base_shift == 20,
            r.level_shift == 4,
            r.num_levels == 4,
            r.linear_shift == Some(16u32),
    {
        Self::new(BinningSchema::Sparse, 20, 4, 4, Some(16))
    }

    /// Resolve a schema to its parameterization.
    pub fn from_schema(schema: &BinningSchema) -> (r: Self)
        ensures
            r.wf(),
            r.schema == *schema,
            r.base_shift == schema_base_shift(*schema),
            r.level_shift == schema_level_shift(*schema),
            r.num_levels == schema_num_levels(*schema),
            r.linear_shift == schema_linear_shift(*schema),
            r.linear_shift.is_some() == schema_uses_linear(*schema),
    {
        match schema {
            BinningSchema::Tabix => Self::tabix(),
            BinningSchema::TabixNoLinear => Self::tabix_no_linear(),
            BinningSchema::Ucsc => Self::ucsc(),
            BinningSchema::UcscNoLinear => Self::ucsc_no_linear(),
            BinningSchema::Dense => Self::dense(),
            BinningSchema::Sparse => Self::sparse(),
        }
    }

    /// Whether the schema calls for the linear acceleration index.
    pub fn uses_linear_index(&self) -> (r: bool)
        ensures
            r == self.linear_shift.is_some(),
    {
        self.linear_shift.is_some()
    }
}

/// Moving one level coarser divides the position by the level ratio.
proof fn lemma_pos_step(b: &HierarchicalBins, x: u32, j: int)
    requires
        b.wf(),
        0 <= j,
    ensures
        b.pos_at(x, j) / pow2(b.level_shift as nat) == b.pos_at(x, j + 1),
{
    let ls = b.level_shift as nat;
    let k = b.shift_at(j);
    lemma_pow2_pos(k);
    lemma_pow2_pos(ls);
    lemma_div_denominator(x as int, pow2(k) as int, pow2(ls) as int);
    lemma_pow2_adds(k, ls);
    assert(k + ls == b.shift_at(j + 1)) by (nonlinear_arith)
        requires
            k == b.base_shift as nat + b.level_shift as nat * j as nat,
            ls == b.level_shift as nat,
            j >= 0,
    ;
}

/// Positions are monotone in the coordinate.
proof fn lemma_pos_mono(b: &HierarchicalBins, x: u32, y: u32, j: int)
    requires
        b.wf(),
        x <= y,
    ensures
        b.pos_at(x, j) <= b.pos_at(y, j),
{
    lemma_pow2_pos(b.shift_at(j));
    lemma_div_is_ordered(x as int, y as int, pow2(b.shift_at(j)) as int);
}

/// A coordinate below the ceiling sits at a position below the level size.
proof fn lemma_pos_bound(b: &HierarchicalBins, x: u32, j: int)
    requires
        b.wf(),
        0 <= j < b.num_levels,
        (x as nat) < b.coord_ceiling(),
    ensures
        b.pos_at(x, j) < b.size_at(j),
{
    let ls = b.level_shift as nat;
    let n = b.num_levels as int;
    let k = b.shift_at(j);
    let m = ls * (n - 1 - j) as nat;
    assert(k + m == b.shift_at(n - 1)) by (nonlinear_arith)
        requires
            k == b.base_shift as nat + ls * j as nat,
            m == ls * (n - 1 - j) as nat,
            0 <= j < n,
            b.shift_at(n - 1) == b.base_shift as nat + ls * (n - 1) as nat,
    ;
    lemma_pow2_adds(k, m);
    lemma_pow2_pos(k);
    lemma_pow2_pos(m);
    lemma_multiply_divide_lt(x as int, pow2(k) as int, pow2(m) as int);
}

/// Any range below the ceiling fits whole inside the single coarsest bin.
proof fn lemma_fits_top(b: &HierarchicalBins, start: u32, end: u32)
    requires
        b.wf(),
        start < end,
        ((end - 1) as u32 as nat) < b.coord_ceiling(),
    ensures
        b.fits_level(start, end, b.num_levels - 1),
{
    let n = b.num_levels as int;
    let last = (end - 1) as u32;
    assert(b.size_at(n - 1) == 1) by {
        assert(b.level_shift as nat * (n - 1 - (n - 1)) as nat == 0) by (nonlinear_arith);
        lemma2_to64();
    }
    lemma_pos_bound(b, last, n - 1);
    lemma_pos_mono(b, start, last, n - 1);
}

/// `level_for` picks the first fitting level.
proof fn lemma_level_for_eq(b: &HierarchicalBins, start: u32, end: u32, j: int, j0: int)
    requires
        b.wf(),
        0 <= j <= j0 < b.num_levels,
        forall|t: int| j <= t < j0 ==> !b.fits_level(start, end, t),
        b.fits_level(start, end, j0),
    ensures
        b.level_for(start, end, j) == j0,
    decreases j0 - j,
{
    if j < j0 {
        lemma_level_for_eq(b, start, end, j + 1, j0);
    }
}

/// The finest-bin shift each schema resolves to.
pub open spec fn schema_base_shift(schema: BinningSchema) -> u32 {
    match schema {
        BinningSchema::Tabix => 14,
        BinningSchema::TabixNoLinear => 14,
        BinningSchema::Ucsc => 17,
        BinningSchema::UcscNoLinear => 17,
        BinningSchema::Dense => 14,
        BinningSchema::Sparse => 20,
    }
}

/// The level width ratio each schema resolves to.
pub open spec fn schema_level_shift(schema: BinningSchema) -> u32 {
    match schema {
        BinningSchema::Sparse => 4,
        _ => 3,
    }
}

/// The level count each schema resolves to.
pub open spec fn schema_num_levels(schema: BinningSchema) -> usize {
    match schema {
        BinningSchema::Tabix => 6,
        BinningSchema::TabixNoLinear => 6,
        BinningSchema::Ucsc => 5,
        BinningSchema::UcscNoLinear => 5,
        BinningSchema::Dense => 10,
        BinningSchema::Sparse => 4,
    }
}

/// The linear-index window shift each schema resolves to, if any.
pub open spec fn schema_linear_shift(schema: BinningSchema) -> Option<u32> {
    match schema {
        BinningSchema::Tabix => Some(14),
        BinningSchema::TabixNoLinear => None,
        BinningSchema::Ucsc => Some(14),
        BinningSchema::UcscNoLinear => None,
        BinningSchema::Dense => Some(8),
        BinningSchema::Sparse => Some(16),
    }
}

/// Whether a schema declares a linear index.
pub open spec fn schema_uses_linear(schema: BinningSchema) -> bool {
    match schema {
        BinningSchema::Tabix => true,
        BinningSchema::TabixNoLinear => false,
        BinningSchema::Ucsc => true,
        BinningSchema::UcscNoLinear => false,
        BinningSchema::Dense => true,
        BinningSchema::Sparse => true,
    }
}

/// A scheme stays well-formed when its linear shift is cleared.
pub proof fn lemma_wf_without_linear(a: &HierarchicalBins, b: &HierarchicalBins)
    requires
        a.wf(),
        b.schema == a.schema,
        b.base_shift == a.base_shift,
        b.level_shift == a.level_shift,
        b.num_levels == a.num_levels,
        b.levels == a.levels,
        b.bin_offsets == a.bin_offsets,
        b.linear_shift.is_none(),
    ensures
        b.wf(),
{
    assert forall|j: int| 0 <= j < b.num_levels implies b.bin_offsets[j] == b.offset_at(j) by {
        assert(a.bin_offsets[j] == a.offset_at(j));
    }
}

impl Default for HierarchicalBins {
    /// The default parameterization is the tabix-compatible one.
    fn default() -> (r: Self)
        ensures
            r.wf(),
            r.schema == BinningSchema::Tabix,
            r.base_shift == 14,
            r.level_shift == 3,
            r.num_levels == 6,
            r.linear_shift == Some(14u32),
    {
        Self::from_schema(&BinningSchema::Tabix)
    }
}

impl HierarchicalBins {
    /// Compute the id of the smallest bin fully containing `[start, end)`.
    ///
    /// Coordinates at or past the scheme's ceiling have no containing bin
    /// at any level; the design treats them as out of range.
    pub fn region_to_bin(&self, start: u32, end: u32) -> (r: u32)
        requires
            self.wf(),
            start < end,
            ((end - 1) as u32 as nat) < self.coord_ceiling(),
        ensures
            r as nat == self.spec_region_to_bin(start, end),
            (r as nat) < self.total_bins(),
    {
        let last = end - 1;
        proof {
            lemma_fits_top(self, start, end);
            lemma_u32_shr_is_div(start, self.base_shift);
            lemma_u32_shr_is_div(last, self.base_shift);
            assert(self.shift_at(0) == self.base_shift as nat) by (nonlinear_arith)
                requires self.shift_at(0) == self.base_shift as nat + self.level_shift as nat * 0,
            ;
        }
        let num_levels = self.num_levels;
        let mut start_bin: u32 = start >> self.base_shift;
        let mut end_bin: u32 = last >> self.base_shift;
        let mut j: usize = 0;
        while j < num_levels
            invariant
                self.wf(),
                start < end,
                last == (end - 1) as u32,
                (last as nat) < self.coord_ceiling(),
                j <= num_levels,
                num_levels == self.num_levels,
                start_bin as nat == self.pos_at(start, j as int),
                end_bin as nat == self.pos_at(last, j as int),
                forall|t: int| 0 <= t < j ==> !self.fits_level(start, end, t),
                self.fits_level(start, end, num_levels as int - 1),
            decreases num_levels - j,
        {
            if start_bin == end_bin {
                proof {
                    lemma_level_for_eq(self, start, end, 0, j as int);
                    lemma_pos_bound(self, last, j as int);
                    lemma_bin_id_tiling(self, j as int);
                }
                let off = self.bin_offsets[j];
                return off + start_bin;
            }
            proof {
                lemma_u32_shr_is_div(start_bin, self.level_shift);
                lemma_u32_shr_is_div(end_bin, self.level_shift);
                lemma_pos_step(self, start, j as int);
                lemma_pos_step(self, last, j as int);
            }
            start_bin = start_bin >> self.level_shift;
            end_bin = end_bin >> self.level_shift;
            j = j + 1;
        }
        proof {
            assert(false);
        }
        0
    }
}



/// A sequence of bin ids with no repeated element.
pub open spec fn seq_distinct(s: Seq<u32>) -> bool {
    forall|i: int, j: int| 0 <= i < j < s.len() ==> s[i] != s[j]
}

impl HierarchicalBins {
    /// The ids enumerated at level `j` for the query `[start, end)`: the
    /// consecutive run from the bin holding `start` to the bin holding
    /// `end - 1`.
    pub open spec fn level_bins(&self, start: u32, end: u32, j: int) -> Seq<u32> {
        Seq::new(
            (self.pos_at((end - 1) as u32, j) - self.pos_at(start, j) + 1) as nat,
            |k: int| (self.offset_at(j) + self.pos_at(start, j) + k) as u32,
        )
    }

    /// The ids enumerated at levels `j` and coarser, finest first.
    pub open spec fn bins_from(&self, start: u32, end: u32, j: int) -> Seq<u32>
        decreases self.num_levels - j,
    {
        if j >= self.num_levels {
            Seq::empty()
        } else {
            self.level_bins(start, end, j) + self.bins_from(start, end, j + 1)
        }
    }

    /// Every bin id, at every level, whose coordinate span could hold a
    /// range overlapping `[start, end)`.
    pub open spec fn spec_region_to_bins(&self, start: u32, end: u32) -> Seq<u32> {
        self.bins_from(start, end, 0)
    }

    /// Compute all bins potentially overlapping the range `[start, end)`.
    pub fn region_to_bins(&self, start: u32, end: u32) -> (r: Vec<u32>)
        requires
            self.wf(),
            start < end,
            ((end - 1) as u32 as nat) < self.coord_ceiling(),
        ensures
            r@ == self.spec_region_to_bins(start, end),
    {
        let last = end - 1;
        proof {
            lemma_u32_shr_is_div(start, self.base_shift);
            lemma_u32_shr_is_div(last, self.base_shift);
            assert(self.shift_at(0) == self.base_shift as nat) by (nonlinear_arith)
                requires self.shift_at(0) == self.base_shift as nat + self.level_shift as nat * 0,
            ;
        }
        let num_levels = self.num_levels;
        let mut bins: Vec<u32> = Vec::new();
        let mut start_bin: u32 = start >> self.base_shift;
        let mut end_bin: u32 = last >> self.base_shift;
        let mut j: usize = 0;
        while j < num_levels
            invariant
                self.wf(),
                start < end,
                last == (end - 1) as u32,
                (last as nat) < self.coord_ceiling(),
                j <= num_levels,
                num_levels == self.num_levels,
                start_bin as nat == self.pos_at(start, j as int),
                end_bin as nat == self.pos_at(last, j as int),
                bins@ + self.bins_from(start, end, j as int) == self.spec_region_to_bins(start, end),
            decreases num_levels - j,
        {
            proof {
                lemma_pos_bound(self, last, j as int);
                lemma_pos_mono(self, start, last, j as int);
                lemma_bin_id_tiling(self, j as int);
            }
            let off = self.bin_offsets[j];
            let hi = off + end_bin;
            let mut b: u32 = off + start_bin;
            let ghost level_seq = self.level_bins(start, end, j as int);
            let ghost bins_prev = bins@;
            assert(level_seq.len() == end_bin - start_bin + 1);
            while b <= hi
                invariant
                    off + start_bin <= b <= hi + 1,
                    hi == off + end_bin,
                    start_bin <= end_bin,
                    hi < u32::MAX,
                    level_seq.len() == end_bin - start_bin + 1,
                    forall|k: int| 0 <= k < level_seq.len() ==> level_seq[k] == (off + start_bin + k) as u32,
                    bins@ == bins_prev + level_seq.take(b - (off + start_bin)),
                decreases hi + 1 - b,
            {
                proof {
                    let t = b - (off + start_bin);
                    assert(level_seq.take(t + 1) =~= level_seq.take(t).push(level_seq[t]));
                }
                bins.push(b);
                b = b + 1;
            }
            proof {
                assert(level_seq.take(level_seq.len() as int) =~= level_seq);
                assert(self.bins_from(start, end, j as int) == level_seq + self.bins_from(start, end, j as int + 1));
                assert((bins_prev + level_seq) + self.bins_from(start, end, j as int + 1) =~= bins_prev + (level_seq + self.bins_from(start, end, j as int + 1)));
                lemma_u32_shr_is_div(start_bin, self.level_shift);
                lemma_u32_shr_is_div(end_bin, self.level_shift);
                lemma_pos_step(self, start, j as int);
                lemma_pos_step(self, last, j as int);
            }
            start_bin = start_bin >> self.level_shift;
            end_bin = end_bin >> self.level_shift;
            j = j + 1;
        }
        proof {
            assert(self.bins_from(start, end, num_levels as int) =~= Seq::<u32>::empty());
            assert(bins@ + Seq::<u32>::empty() =~= bins@);
        }
        bins
    }
}

/// `level_for` finds a fitting level below `num_levels`, fitting nowhere
/// finer.
proof fn lemma_level_for_props(b: &HierarchicalBins, start: u32, end: u32, j: int)
    requires
        b.wf(),
        0 <= j < b.num_levels,
        b.fits_level(start, end, b.num_levels - 1),
    ensures
        j <= b.level_for(start, end, j) < b.num_levels,
        b.fits_level(start, end, b.level_for(start, end, j)),
        forall|t: int| j <= t < b.level_for(start, end, j) ==> !b.fits_level(start, end, t),
    decreases b.num_levels - j,
{
    if !b.fits_level(start, end, j) {
        lemma_level_for_props(b, start, end, j + 1);
    }
}

/// Every element of a level segment stays within that level's id range.
proof fn lemma_level_bins_in_range(b: &HierarchicalBins, start: u32, end: u32, j: int)
    requires
        b.wf(),
        start < end,
        ((end - 1) as u32 as nat) < b.coord_ceiling(),
        0 <= j < b.num_levels,
    ensures
        forall|k: int| 0 <= k < b.level_bins(start, end, j).len()
            ==> b.offset_at(j) <= (#[trigger] b.level_bins(start, end, j)[k]) as nat
                && (b.level_bins(start, end, j)[k] as nat) < b.offset_at(j) + b.size_at(j),
        b.level_bins(start, end, j).len() >= 1,
        seq_distinct(b.level_bins(start, end, j)),
{
    let last = (end - 1) as u32;
    lemma_pos_bound(b, last, j);
    lemma_pos_mono(b, start, last, j);
    lemma_bin_id_tiling(b, j);
    let s = b.level_bins(start, end, j);
    assert forall|k: int| 0 <= k < s.len() implies b.offset_at(j) <= (#[trigger] s[k]) as nat && (s[k] as nat) < b.offset_at(j) + b.size_at(j) by {
        assert(s[k] == (b.offset_at(j) + b.pos_at(start, j) + k) as u32);
        assert(b.offset_at(j) + b.pos_at(start, j) + k <= b.offset_at(j) + b.pos_at(last, j) < b.offset_at(j) + b.size_at(j));
    }
    assert forall|k1: int, k2: int| 0 <= k1 < k2 < s.len() implies s[k1] != s[k2] by {
        assert(b.offset_at(j) + b.pos_at(start, j) + k1 < b.offset_at(j) + b.pos_at(start, j) + k2 <= u32::MAX);
    }
}

/// All ids enumerated at levels `j` and coarser lie below the end of level
/// `j`'s id range, and no id repeats among them.
proof fn lemma_bins_from_distinct(b: &HierarchicalBins, start: u32, end: u32, j: int)
    requires
        b.wf(),
        start < end,
        ((end - 1) as u32 as nat) < b.coord_ceiling(),
        0 <= j,
    ensures
        forall|k: int| 0 <= k < b.bins_from(start, end, j).len()
            ==> j < b.num_levels && ((#[trigger] b.bins_from(start, end, j)[k]) as nat)
                < b.offset_at(j) + b.size_at(j),
        seq_distinct(b.bins_from(start, end, j)),
    decreases b.num_levels - j,
{
    if j < b.num_levels {
        lemma_bins_from_distinct(b, start, end, j + 1);
        lemma_level_bins_in_range(b, start, end, j);
        lemma_bin_id_tiling(b, j);
        let lev = b.level_bins(start, end, j);
        let rest = b.bins_from(start, end, j + 1);
        let whole = b.bins_from(start, end, j);
        assert(whole == lev + rest);
        if j + 1 < b.num_levels {
            lemma_bin_id_tiling(b, j + 1);
            assert(b.offset_at(j + 1) + b.size_at(j + 1) == b.offset_at(j));
        }
        assert forall|k: int| 0 <= k < whole.len() implies ((#[trigger] whole[k]) as nat) < b.offset_at(j) + b.size_at(j) by {
            if k < lev.len() {
                assert(whole[k] == lev[k]);
            } else {
                assert(whole[k] == rest[k - lev.len()]);
            }
        }
        assert forall|k1: int, k2: int| 0 <= k1 < k2 < whole.len() implies whole[k1] != whole[k2] by {
            if k1 < lev.len() && k2 >= lev.len() {
                assert(whole[k1] == lev[k1]);
                assert(whole[k2] == rest[k2 - lev.len()]);
                assert(whole[k1] as nat >= b.offset_at(j));
                assert((whole[k2] as nat) < b.offset_at(j));
            } else if k2 < lev.len() {
                assert(whole[k1] == lev[k1] && whole[k2] == lev[k2]);
            } else {
                assert(whole[k1] == rest[k1 - lev.len()] && whole[k2] == rest[k2 - lev.len()]);
            }
        }
    }
}

/// No bin id is enumerated twice for a query within the coordinate
/// ceiling: uniqueness of the candidate bins.
pub proof fn lemma_region_to_bins_distinct(b: &HierarchicalBins, start: u32, end: u32)
    requires
        b.wf(),
        start < end,
        ((end - 1) as u32 as nat) < b.coord_ceiling(),
    ensures
        seq_distinct(b.spec_region_to_bins(start, end)),
{
    lemma_bins_from_distinct(b, start, end, 0);
}

/// Any element of a level's segment occurs in the whole enumeration.
proof fn lemma_bins_from_contains(b: &HierarchicalBins, start: u32, end: u32, j: int, lv: int, x: u32)
    requires
        b.wf(),
        0 <= j <= lv < b.num_levels,
        b.level_bins(start, end, lv).contains(x),
    ensures
        b.bins_from(start, end, j).contains(x),
    decreases lv - j,
{
    let lev = b.level_bins(start, end, j);
    let rest = b.bins_from(start, end, j + 1);
    if j == lv {
        let k = choose|k: int| 0 <= k < lev.len() && lev[k] == x;
        assert(b.bins_from(start, end, j)[k] == x);
    } else {
        lemma_bins_from_contains(b, start, end, j + 1, lv, x);
        let k = choose|k: int| 0 <= k < rest.len() && rest[k] == x;
        assert(b.bins_from(start, end, j)[lev.len() + k] == x);
    }
}

/// Completeness of the bin enumeration: the bin assigned to any stored
/// range overlapping the query is among the bins enumerated for the query.
pub proof fn lemma_overlapping_bin_enumerated(b: &HierarchicalBins, s: u32, e: u32, q0: u32, q1: u32)
    requires
        b.wf(),
        s < e,
        ((e - 1) as u32 as nat) < b.coord_ceiling(),
        q0 < q1,
        ((q1 - 1) as u32 as nat) < b.coord_ceiling(),
        s < q1,
        e > q0,
    ensures
        b.spec_region_to_bins(q0, q1).contains(b.spec_region_to_bin(s, e) as u32),
{
    lemma_fits_top(b, s, e);
    lemma_level_for_props(b, s, e, 0);
    let lv = b.level_for(s, e, 0);
    let v = b.pos_at(s, lv);
    let last = (e - 1) as u32;
    let qlast = (q1 - 1) as u32;
    // s <= q1 - 1 and e - 1 >= q0, so the fitted position sits between the
    // query's end positions at level lv.
    lemma_pos_mono(b, s, qlast, lv);
    lemma_pos_mono(b, q0, last, lv);
    assert(b.pos_at(q0, lv) <= v) by {
        assert(b.pos_at(last, lv) == v);
    }
    assert(v <= b.pos_at(qlast, lv));
    lemma_bin_id_tiling(b, lv);
    lemma_pos_bound(b, qlast, lv);
    let lev = b.level_bins(q0, q1, lv);
    let k = v - b.pos_at(q0, lv);
    assert(lev[k as int] == (b.offset_at(lv) + b.pos_at(q0, lv) + k) as u32);
    assert(b.offset_at(lv) + v <= b.offset_at(lv) + b.pos_at(qlast, lv) < b.total_bins() <= u32::MAX);
    assert(lev[k as int] == b.spec_region_to_bin(s, e) as u32);
    assert(lev.contains(b.spec_region_to_bin(s, e) as u32));
    lemma_bins_from_contains(b, q0, q1, 0, lv, b.spec_region_to_bin(s, e) as u32);
}

/// Containment: the bin chosen for `[start, end)` spans the whole range.
/// The bin with id `r` at level `lv` covers coordinates
/// `[(r - offset_at(lv)) * 2^shift_at(lv), (r - offset_at(lv) + 1) * 2^shift_at(lv))`.
pub proof fn lemma_bin_containment(b: &HierarchicalBins, start: u32, end: u32)
    requires
        b.wf(),
        start < end,
        ((end - 1) as u32 as nat) < b.coord_ceiling(),
    ensures
        ({
            let lv = b.level_for(start, end, 0);
            let r = b.spec_region_to_bin(start, end);
            &&& 0 <= lv < b.num_levels
            &&& b.offset_at(lv) <= r < b.offset_at(lv) + b.size_at(lv)
            &&& (r - b.offset_at(lv)) * pow2(b.shift_at(lv)) <= start as nat
            &&& end as nat <= (r - b.offset_at(lv) + 1) * pow2(b.shift_at(lv))
        }),
{
    lemma_fits_top(b, start, end);
    lemma_level_for_props(b, start, end, 0);
    let lv = b.level_for(start, end, 0);
    let last = (end - 1) as u32;
    let p = pow2(b.shift_at(lv)) as int;
    let v = b.pos_at(start, lv);
    lemma_pow2_pos(b.shift_at(lv));
    lemma_pos_bound(b, last, lv);
    lemma_pos_mono(b, start, last, lv);
    // v * 2^k <= start: the division's fundamental identity.
    lemma_fundamental_div_mod(start as int, p);
    vstd::arithmetic::div_mod::lemma_mod_division_less_than_divisor(start as int, p);
    vstd::arithmetic::div_mod::lemma_mod_bound(start as int, p);
    assert(v as int * p <= start as int) by (nonlinear_arith)
        requires
            start as int == p * (v as int) + (start as int % p),
            start as int % p >= 0,
    ;
    // end - 1 < (v + 1) * 2^k.
    lemma_fundamental_div_mod(last as int, p);
    vstd::arithmetic::div_mod::lemma_mod_bound(last as int, p);
    assert((last as int) < (b.pos_at(last, lv) as int + 1) * p) by (nonlinear_arith)
        requires
            last as int == p * (b.pos_at(last, lv) as int) + (last as int % p),
            last as int % p < p,
    ;
    assert(b.pos_at(last, lv) == v);
    assert(b.spec_region_to_bin(start, end) == b.offset_at(lv) + v);
}



/// The ids still to be emitted by an enumerator standing at level `cl`
/// with the current position `run` and the query's per-level positions
/// derived from `s` and `e`.
pub open spec fn iter_remaining(offs: Seq<u32>, ls: u32, cl: int, run: u32, s: u32, e: u32) -> Seq<
    u32,
>
    decreases
            offs.len() - cl,
            (if run <= e {
                e - run
            } else {
                0
            }) as int,
    when cl >= 0
{
    if cl >= offs.len() {
        Seq::empty()
    } else {
        let here = (offs[cl] + run) as u32;
        if run < e {
            seq![here] + iter_remaining(offs, ls, cl, (run + 1) as u32, s, e)
        } else {
            seq![here] + iter_remaining(offs, ls, cl + 1, s >> ls, s >> ls, e >> ls)
        }
    }
}

/// A step-by-step enumerator over the bins of a query range: the same
/// ids `region_to_bins` collects, one per call.
pub struct RegionToBins<'a> {
    /// Level being walked, `0` the finest.
    pub current_level: usize,
    /// Bin position about to be emitted at this level.
    pub run_bin: u32,
    /// The query start's bin position at this level.
    pub start_bin: u32,
    /// The query end's bin position at this level.
    pub end_bin: u32,
    /// The schema's per-level id offsets.
    pub bin_offsets: &'a [u32],
    /// The schema's level width ratio.
    pub level_shift: u32,
}

impl<'a> RegionToBins<'a> {
    /// The ids this enumerator will still emit.
    pub open spec fn remaining(self) -> Seq<u32> {
        iter_remaining(
            self.bin_offsets@,
            self.level_shift,
            self.current_level as int,
            self.run_bin,
            self.start_bin,
            self.end_bin,
        )
    }

    /// Which states the enumerator moves through.
    pub open spec fn wf(self) -> bool {
        self.level_shift < 32
    }

    /// Emit the next bin id, walking each level's run before moving one
    /// level coarser.  Ids can exceed the schema's valid range when the
    /// query was not bounded by the coordinate ceiling.
    pub fn next(&mut self) -> (r: Option<u32>)
        requires
            old(self).wf(),
        ensures
            final(self).wf(),
            match r {
                Some(b) => {
                    &&& old(self).remaining().len() > 0
                    &&& b == old(self).remaining()[0]
                    &&& final(self).remaining() == old(self).remaining().drop_first()
                },
                None => {
                    &&& old(self).remaining().len() == 0
                    &&& *final(self) == *old(self)
                },
            },
    {
        if self.current_level >= self.bin_offsets.len() {
            return None;
        }
        let current_bin = self.bin_offsets[self.current_level].wrapping_add(self.run_bin);
        proof {
            let o = self.bin_offsets@[self.current_level as int];
            let s = self.run_bin;
            if o + s > u32::MAX {
                assert((o + s - 0x1_0000_0000) as u32 == (o + s) as u32) by (bit_vector);
            }
            assert(current_bin == (o + s) as u32);
        }
        if self.run_bin < self.end_bin {
            self.run_bin = self.run_bin + 1;
        } else {
            self.current_level = self.current_level + 1;
            self.start_bin = self.start_bin >> self.level_shift;
            self.end_bin = self.end_bin >> self.level_shift;
            self.run_bin = self.start_bin;
        }
        proof {
            assert(old(self).remaining().drop_first() =~= final(self).remaining());
        }
        Some(current_bin)
    }
}

impl HierarchicalBins {
    /// An enumerator over the bins potentially overlapping
    /// `[start, end)`, emitting what `region_to_bins` would collect.
    pub fn region_to_bins_iter<'a>(&'a self, start: u32, end: u32) -> (r: RegionToBins<'a>)
        requires
            self.wf(),
            start < end,
            ((end - 1) as u32 as nat) < self.coord_ceiling(),
        ensures
            r.wf(),
            r.remaining() == self.spec_region_to_bins(start, end),
    {
        let last = end - 1;
        let start_bin = start >> self.base_shift;
        let end_bin = last >> self.base_shift;
        let r = RegionToBins {
            current_level: 0,
            run_bin: start_bin,
            start_bin,
            end_bin,
            bin_offsets: self.bin_offsets.as_slice(),
            level_shift: self.level_shift,
        };
        proof {
            lemma_u32_shr_is_div(start, self.base_shift);
            lemma_u32_shr_is_div(last, self.base_shift);
            assert(self.shift_at(0) == self.base_shift as nat) by (nonlinear_arith)
                requires self.shift_at(0) == self.base_shift as nat + self.level_shift as nat * 0,
            ;
            lemma_iter_levels(self, start, end, 0, start_bin, end_bin);
        }
        r
    }
}

/// From any level on, the enumerator's remaining output is the spec
/// enumeration's tail from that level.
proof fn lemma_iter_levels(b: &HierarchicalBins, start: u32, end: u32, j: int, s: u32, e: u32)
    requires
        b.wf(),
        start < end,
        ((end - 1) as u32 as nat) < b.coord_ceiling(),
        0 <= j <= b.num_levels,
        j < b.num_levels ==> s as nat == b.pos_at(start, j),
        j < b.num_levels ==> e as nat == b.pos_at((end - 1) as u32, j),
    ensures
        iter_remaining(b.bin_offsets@, b.level_shift, j, s, s, e) == b.bins_from(start, end, j),
    decreases b.num_levels - j,
{
    if j >= b.num_levels {
        assert(iter_remaining(b.bin_offsets@, b.level_shift, j, s, s, e) =~= Seq::<u32>::empty());
    } else {
        lemma_u32_shr_is_div(s, b.level_shift);
        lemma_u32_shr_is_div(e, b.level_shift);
        lemma_pos_step(b, start, j);
        lemma_pos_step(b, (end - 1) as u32, j);
        lemma_pos_mono(b, start, (end - 1) as u32, j);
        lemma_iter_levels(b, start, end, j + 1, s >> b.level_shift, e >> b.level_shift);
        lemma_iter_run(b, start, end, j, s, s, e);
    }
}

/// Within one level, the enumerator emits the rest of the level's run
/// and then the coarser levels' output.
proof fn lemma_iter_run(b: &HierarchicalBins, start: u32, end: u32, j: int, run: u32, s: u32, e: u32)
    requires
        b.wf(),
        start < end,
        ((end - 1) as u32 as nat) < b.coord_ceiling(),
        0 <= j < b.num_levels,
        s as nat == b.pos_at(start, j),
        e as nat == b.pos_at((end - 1) as u32, j),
        s <= run <= e,
        iter_remaining(b.bin_offsets@, b.level_shift, j + 1, s >> b.level_shift, s >> b.level_shift, e >> b.level_shift)
            == b.bins_from(start, end, j + 1),
    ensures
        iter_remaining(b.bin_offsets@, b.level_shift, j, run, s, e) == b.level_bins(
            start,
            end,
            j,
        ).skip(run - s) + b.bins_from(start, end, j + 1),
        run == s ==> iter_remaining(b.bin_offsets@, b.level_shift, j, run, s, e) == b.bins_from(
            start,
            end,
            j,
        ),
    decreases e - run,
{
    lemma_pos_bound(b, (end - 1) as u32, j);
    lemma_pos_mono(b, start, (end - 1) as u32, j);
    lemma_bin_id_tiling(b, j);
    let lev = b.level_bins(start, end, j);
    let k = run - s;
    let here = (b.bin_offsets@[j] + run) as u32;
    assert(b.offset_at(j) + b.pos_at(start, j) + k < b.total_bins());
    assert(here == lev[k as int]);
    if run < e {
        lemma_iter_run(b, start, end, j, (run + 1) as u32, s, e);
        assert(lev.skip(k as int) =~= seq![lev[k as int]] + lev.skip(k as int + 1));
        assert(iter_remaining(b.bin_offsets@, b.level_shift, j, run, s, e) =~= lev.skip(k as int)
            + b.bins_from(start, end, j + 1));
    } else {
        assert(run == e);
        assert(lev.skip(k as int) =~= seq![lev[k as int]]);
        assert(iter_remaining(b.bin_offsets@, b.level_shift, j, run, s, e) =~= lev.skip(k as int)
            + b.bins_from(start, end, j + 1));
    }
    if run == s {
        assert(lev.skip(0) =~= lev);
        assert(b.bins_from(start, end, j) == lev + b.bins_from(start, end, j + 1));
    }
}

} // verus!
