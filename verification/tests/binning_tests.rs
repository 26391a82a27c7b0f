//! Tests of the hierarchical binning scheme: level sizes, id offsets,
//! and the range-to-bin mappings.

use std::collections::HashSet;

use hgindex::binning::{calc_level_sizes, calc_offsets, BinningSchema, HierarchicalBins};

#[test]
fn test_ucsc_calc_levels() {
    // Calculate bin counts for each level
    let bin_counts = vec![1, 8, 64, 512, 4096];
    assert_eq!(bin_counts, calc_level_sizes(3, 5));
}

#[test]
fn test_ucsc_offsets() {
    let offsets = calc_offsets(3, 5);
    assert_eq!(offsets, vec![585, 73, 9, 1, 0]);
}

#[test]
fn test_ucsc_extended_offsets() {
    // For the extended case that handles up to 2Gb
    let offsets = calc_offsets(3, 6);
    assert_eq!(offsets, vec![4681, 585, 73, 9, 1, 0]);
}

#[test]
fn test_bin_counts_per_level() {
    let offsets = calc_offsets(3, 5);

    // Verify the differences between offsets match the UCSC bin counts
    assert_eq!(offsets[0] - offsets[1], 512);
    assert_eq!(offsets[1] - offsets[2], 64);
    assert_eq!(offsets[2] - offsets[3], 8);
    assert_eq!(offsets[3] - offsets[4], 1);
    assert_eq!(offsets[4], 0);
}

#[test]
fn test_non_overlapping_ranges() {
    let offsets = calc_offsets(3, 5);
    assert_eq!(offsets, vec![585, 73, 9, 1, 0]);

    // Calculate bin counts for each level
    let bin_counts = vec![1, 8, 64, 512, 4096];
    assert_eq!(bin_counts, calc_level_sizes(3, 5));

    // For each level, the offset starts that level's range and the
    // offset plus bin count minus one ends it.
    assert_eq!(offsets[0], 585);
    assert_eq!(offsets[0] + bin_counts[0] - 1, 585);

    assert_eq!(offsets[1], 73);
    assert_eq!(offsets[1] + bin_counts[1] - 1, 80);

    assert_eq!(offsets[2], 9);
    assert_eq!(offsets[2] + bin_counts[2] - 1, 72);

    assert_eq!(offsets[3], 1);
    assert_eq!(offsets[3] + bin_counts[3] - 1, 512);

    assert_eq!(offsets[4], 0);
    assert_eq!(offsets[4] + bin_counts[4] - 1, 4095);
}

#[test]
fn test_region_to_bin() {
    let index = HierarchicalBins::ucsc();

    // "100_000_000 >> 17" gives bin 762
    assert_eq!(index.region_to_bin(100_000_000, 100_000_100), 762 + 585);

    // Small range (fits at the finest level, 128kb bins)
    assert_eq!(index.region_to_bin(0, 1000), 585);

    // 1MB range
    assert_eq!(index.region_to_bin(1_000_000, 2_000_000), 9);

    // 10MB range
    assert_eq!(index.region_to_bin(10_000_000, 20_000_000), 1);

    // 100MB range (goes to the single coarsest bin)
    assert_eq!(index.region_to_bin(100_000_000, 200_000_000), 0);

    // 500MB range
    assert_eq!(index.region_to_bin(0, 500_000_000), 0);

    #[allow(non_upper_case_globals)]
    const KiB: u32 = 1024;

    // Exact bin boundaries
    assert_eq!(index.region_to_bin(0, 128 * KiB), 585);
    assert_eq!(index.region_to_bin(128 * KiB, 256 * KiB), 586);

    // Adjacent regions get different bins
    let bin1 = index.region_to_bin(0, 128_000);
    let bin2 = index.region_to_bin(128_000, 256_000);
    assert_ne!(bin1, bin2);
}

#[test]
fn test_region_to_bins() {
    for schema in [
        BinningSchema::Tabix,
        BinningSchema::Dense,
        BinningSchema::Sparse,
        BinningSchema::Ucsc,
    ] {
        let index = HierarchicalBins::from_schema(&schema);

        // Small range within a single smallest bin
        let bins = index.region_to_bins(1000, 2000);
        let smallest_level_offset = index.bin_offsets[0];
        assert!(!bins.is_empty());
        assert!(bins.contains(&smallest_level_offset));

        // Range spanning exactly two smallest bins
        let base_shift = index.base_shift;
        let bins = index.region_to_bins(1 << base_shift, 2 << base_shift);
        assert!(bins.len() >= 2);

        // Larger range that requires checking multiple levels
        let bins = index.region_to_bins(0, 1_000_000);
        let level_3_start = index.bin_offsets[index.bin_offsets.len() - 2];
        let level_4_start = index.bin_offsets[index.bin_offsets.len() - 1];
        assert!(bins.iter().any(|&x| x >= level_3_start));
        assert!(bins.iter().any(|&x| x >= level_4_start));

        // Exact bin boundary
        let bins = index.region_to_bins(0, 1 << base_shift);
        assert!(bins.contains(&smallest_level_offset));

        // Bins are unique
        let bins = index.region_to_bins(0, 10_000_000);
        let unique_bins: HashSet<_> = bins.iter().cloned().collect();
        assert_eq!(bins.len(), unique_bins.len());
    }
}

fn check_all_configs<F>(test_fn: F)
where
    F: Fn(&HierarchicalBins),
{
    for config in [
        HierarchicalBins::default(),
        HierarchicalBins::ucsc(),
        HierarchicalBins::dense(),
        HierarchicalBins::sparse(),
    ] {
        test_fn(&config);
    }
}

#[test]
fn test_bin_boundaries_all_configs() {
    check_all_configs(|index| {
        let bin_size = 1 << index.base_shift;
        let bin1 = index.region_to_bin(0, bin_size);
        let bin2 = index.region_to_bin(bin_size, 2 * bin_size);
        assert_ne!(bin1, bin2);
    });
}

#[test]
fn test_schema_constructors_match() {
    // Each named constructor carries its own schema tag.
    assert_eq!(HierarchicalBins::tabix().schema, BinningSchema::Tabix);
    assert_eq!(HierarchicalBins::tabix_no_linear().schema, BinningSchema::TabixNoLinear);
    assert_eq!(HierarchicalBins::ucsc().schema, BinningSchema::Ucsc);
    assert_eq!(HierarchicalBins::ucsc_no_linear().schema, BinningSchema::UcscNoLinear);
    assert_eq!(HierarchicalBins::dense().schema, BinningSchema::Dense);
    assert_eq!(HierarchicalBins::sparse().schema, BinningSchema::Sparse);
    assert!(HierarchicalBins::tabix().uses_linear_index());
    assert!(!HierarchicalBins::tabix_no_linear().uses_linear_index());
    assert!(!HierarchicalBins::ucsc_no_linear().uses_linear_index());
}

#[test]
fn test_bin_span_containment() {
    // The chosen bin's coordinate span holds the whole range: with the
    // tabix scheme a finest bin covers 16384 bases.
    let index = HierarchicalBins::tabix();
    let bin = index.region_to_bin(16284, 16484);
    // The range crosses a finest-bin boundary, so it lands one level up,
    // in the 131072-base bin starting at 0.
    assert_eq!(bin, 585);
}

#[test]
fn test_region_to_bins_iter_matches() {
    // The step-by-step enumerator emits exactly what region_to_bins
    // collects, in the same order.
    for schema in [BinningSchema::Tabix, BinningSchema::Ucsc, BinningSchema::Sparse] {
        let index = HierarchicalBins::from_schema(&schema);
        for (start, end) in [(0u32, 1u32), (1000, 2000), (0, 1_000_000), (16384, 140_000)] {
            let collected = index.region_to_bins(start, end);
            let mut iter = index.region_to_bins_iter(start, end);
            let mut walked = Vec::new();
            while let Some(b) = iter.next() {
                walked.push(b);
            }
            assert_eq!(collected, walked);
        }
    }
}
