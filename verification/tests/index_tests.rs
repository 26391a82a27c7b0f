//! Tests of the binning index: sorted-append enforcement, overlap
//! queries, the linear index, persistence, and the text helpers.

use hgindex::binning::{BinningSchema, HierarchicalBins};
use hgindex::binning_index::{BinningIndex, LinearIndex};
use hgindex::persist::{deserialize_index, serialize_index};
use hgindex::regions::{compare_chromosomes, parse_region};
use hgindex::virtual_offset::VirtualOffset;
use hgindex::HgIndexError;

#[test]
fn test_feature_ordering() {
    let mut index = BinningIndex::default();

    // Basic ordering works
    assert!(index.add_feature("chr1", 1000, 2000, 100, 7).is_ok());
    assert!(index.add_feature("chr1", 2000, 3000, 200, 7).is_ok());

    // Same start, different end
    assert!(index.add_feature("chr2", 1000, 2000, 300, 7).is_ok());
    assert!(index.add_feature("chr2", 1000, 2500, 400, 7).is_ok());

    // Chromosome transitions
    assert!(index.add_feature("chr2", 5000, 6000, 500, 7).is_ok());
    assert!(index.add_feature("chr3", 1000, 2000, 600, 7).is_ok());

    // Errors
    let mut index = BinningIndex::default();

    assert!(index.add_feature("chr1", 2000, 3000, 100, 7).is_ok());

    // An earlier start fails
    assert!(matches!(
        index.add_feature("chr1", 1000, 2000, 200, 7),
        Err(HgIndexError::UnsortedFeatures {
            chrom: _,
            bin_id: _,
            previous: 2000,
            current: 1000
        })
    ));
}

#[test]
fn test_feature_ordering_with_ties() {
    let mut index = BinningIndex::default();

    // Ties are okay
    assert!(index.add_feature("chr1", 1000, 2000, 100, 0).is_ok());
    assert!(index.add_feature("chr1", 1000, 2000, 200, 0).is_ok());
    assert!(index.add_feature("chr1", 1000, 2000, 300, 0).is_ok());

    // We can continue after ties
    assert!(index.add_feature("chr1", 1000, 2500, 400, 0).is_ok());
    assert!(index.add_feature("chr1", 2000, 3000, 500, 0).is_ok());

    // Chromosome transitions with ties
    assert!(index.add_feature("chr2", 1000, 2000, 600, 0).is_ok());
    assert!(index.add_feature("chr2", 1000, 2000, 700, 0).is_ok());
}

#[test]
fn test_out_of_range_queries() {
    let mut index = BinningIndex::default();
    index.add_feature("chr1", 1000, 2000, 100, 0).unwrap();

    // Queries completely out of range
    assert!(index.find_overlapping("chr1", 3000, 4000).is_empty());
    assert!(index.find_overlapping("chr1", 0, 500).is_empty());
}

#[test]
fn test_spanning_features() {
    let mut index = BinningIndex::default();
    index.add_feature("chr1", 1000, 50000, 100, 0).unwrap(); // Spans multiple 16kb windows

    // A range covered by the feature
    let results = index.find_overlapping("chr1", 20000, 30000);
    assert_eq!(results.len(), 1);
    assert_eq!(results[0], (100, 0));

    // A range outside the feature
    assert!(index.find_overlapping("chr1", 60000, 70000).is_empty());
}

#[test]
fn test_large_scale_features() {
    let mut index = BinningIndex::default();

    // Features in increments of 1kb
    for i in (0..1_000_000).step_by(1_000) {
        index.add_feature("chr1", i, i + 500, i as u64, 0).unwrap();
    }

    // A range covering multiple features
    let results = index.find_overlapping("chr1", 25000, 35000);
    assert_eq!(results.len(), 10);
}

#[test]
fn test_disable_linear_index_consistency() {
    let mut index = BinningIndex::default();

    for i in (0..1_000_000).step_by(100_000) {
        index.add_feature("chr1", i, i + 50_000, i as u64, 0).unwrap();
    }

    let results_with_linear = index.find_overlapping("chr1", 100_000, 200_000).clone();
    assert!(index.has_linear_index());

    index.disable_linear_index();
    assert!(!index.has_linear_index());

    let results_without_linear = index.find_overlapping("chr1", 100_000, 200_000);

    assert_eq!(results_with_linear, results_without_linear);
}

#[test]
fn test_linear_index_disable() {
    let mut index = BinningIndex::default();

    let mut features = Vec::new();
    let mut offset = 0u64;

    // Many features in the target region with some overlap
    for i in (100000..700000).step_by(17) {
        features.push((i, i + 100, offset));
        offset += 1;
        features.push((i, i + 100000, offset));
        offset += 1;
    }

    features.sort_by_key(|(start, _, _)| *start);

    for (start, end, offset) in features {
        index.add_feature("chr2", start, end, offset, 0).unwrap();
    }

    assert!(index.has_linear_index());
    let results_with_linear: Vec<(u64, u64)> = index.find_overlapping("chr2", 500000, 600000).to_vec();
    index.disable_linear_index();
    assert!(!index.has_linear_index());
    let results_without_linear: Vec<(u64, u64)> = index.find_overlapping("chr2", 500000, 600000).to_vec();

    assert_eq!(
        results_with_linear.len(),
        results_without_linear.len(),
        "Linear index results count {} vs no linear index count {}",
        results_with_linear.len(),
        results_without_linear.len()
    );
}

#[test]
fn test_schema_persistence() {
    let schema = BinningSchema::Dense;
    let mut index = BinningIndex::new(&schema);
    index.add_feature("chr1", 100, 200, 4, 10).unwrap();

    // Serialize
    let bytes = serialize_index(&index, &None);

    // Deserialize
    let (deserialized_index, metadata) = deserialize_index(&bytes).unwrap();
    assert_eq!(deserialized_index.bins.schema, schema);
    assert!(metadata.is_none());
    // The rebuilt index answers queries identically.
    assert_eq!(
        deserialized_index.find_overlapping("chr1", 150, 160),
        index.find_overlapping("chr1", 150, 160)
    );
}

#[test]
fn test_index_round_trip_bytes() {
    // Serializing what was parsed reproduces the file bytes exactly.
    let mut index = BinningIndex::new(&BinningSchema::Ucsc);
    index.add_feature("chr1", 10, 20, 4, 6).unwrap();
    index.add_feature("chr1", 15, 400000, 30, 11).unwrap();
    index.add_feature("chrX", 7, 9, 4, 2).unwrap();
    let blob = vec![9u8, 8u8, 7u8];
    let bytes = serialize_index(&index, &Some(blob.clone()));
    let (parsed, meta) = deserialize_index(&bytes).unwrap();
    assert_eq!(meta, Some(blob));
    let rewritten = serialize_index(&parsed, &meta);
    assert_eq!(rewritten, bytes);
}

#[test]
fn test_deserialize_rejects_garbage() {
    assert!(matches!(
        deserialize_index(&[1, 2, 3]),
        Err(HgIndexError::DeserializationError)
    ));
    // An unknown schema tag is refused.
    assert!(matches!(
        deserialize_index(&[99, 0, 0, 0, 0, 0, 0, 0, 0, 0, 0, 0, 0, 0, 0]),
        Err(HgIndexError::DeserializationError)
    ));
}

#[test]
fn test_virtual_offset() {
    let voffset = VirtualOffset::new(1234, 56);
    assert_eq!(voffset.file_offset(), 1234);
    assert_eq!(voffset.block_offset(), 56);
}

#[test]
fn test_chromosome_ordering() {
    assert!(compare_chromosomes("chr1", "chr2").is_lt());
    assert!(compare_chromosomes("chr2", "chr1").is_gt());
    assert!(compare_chromosomes("chrX", "chrY").is_lt());
    assert!(compare_chromosomes("chr1", "chrX").is_lt());
}

#[test]
fn test_parse_region() {
    // Tabix-style 1-based inclusive becomes 0-based half-open.
    let (name, start, end) = parse_region("chr17:7661779-7687538").unwrap();
    assert_eq!(name, "chr17");
    assert_eq!(start, 7661778);
    assert_eq!(end, 7687538);

    assert!(parse_region("chr17").is_err());
    assert!(parse_region("chr17:10").is_err());
    assert!(parse_region("chr17:a-b").is_err());
    assert!(parse_region("chr17:0-10").is_err());
    assert!(parse_region("chr17:5-6-7").is_err());
}

#[test]
fn test_unsorted_features_error_on_backward_jump() {
    // Returning to a sequence that was already left is rejected.
    let mut index = BinningIndex::default();
    index.add_feature("chr1", 100, 200, 4, 1).unwrap();
    index.add_feature("chr2", 100, 200, 4, 1).unwrap();
    assert!(matches!(
        index.add_feature("chr1", 300, 400, 20, 1),
        Err(HgIndexError::UnsortedFeatures { .. })
    ));
}

#[test]
fn test_linear_index_surface() {
    let bins = HierarchicalBins::tabix();
    let mut li = LinearIndex::from_schema(&bins).expect("tabix declares a linear index");
    assert_eq!(li.len(), 0);

    // No linear index for the no-linear schema.
    assert!(LinearIndex::from_schema(&HierarchicalBins::tabix_no_linear()).is_none());

    // Updating grows the array to the feature's last window and records
    // the minimum offset over every window the range touches.
    li.update(0, 16384, 42);
    assert_eq!(li.len(), 1);
    assert_eq!(li.get_min_offset(0), Some(42));
    li.update(0, 32768, 7);
    assert_eq!(li.len(), 2);
    assert_eq!(li.get_min_offset(0), Some(7));
    assert_eq!(li.get_min_offset(16384), Some(7));
    assert_eq!(li.get_min_offset(40000), None);

    li.resize(5);
    assert_eq!(li.len(), 5);
    assert_eq!(li.get_min_offset(4 * 16384), Some(u64::MAX));
}

#[test]
fn test_untouched_window_does_not_hide_results() {
    // A query starting in a window no feature touches must still find a
    // feature lying further right: the untouched cell imposes no bound.
    let mut index = BinningIndex::default();
    index.add_feature("chr1", 100_000, 200_000, 42, 9).unwrap();

    // The query starts at window 0, which no feature touches.
    let with_linear = index.find_overlapping("chr1", 0, 150_000);
    assert_eq!(with_linear, vec![(42, 9)]);

    index.disable_linear_index();
    let without_linear = index.find_overlapping("chr1", 0, 150_000);
    assert_eq!(with_linear, without_linear);
}

#[test]
fn test_chromosome_ordering_edges() {
    // Numeric ranks beat the lexicographic trap, and unranked names sort
    // first.
    assert!(compare_chromosomes("chr2", "chr10").is_lt());
    assert!(compare_chromosomes("chr10", "chr2").is_gt());
    assert!(compare_chromosomes("chrY", "chrX").is_gt());
    assert!(compare_chromosomes("scaffold_1", "chr1").is_lt());
    assert!(compare_chromosomes("chrM", "chr1").is_lt());
    assert!(compare_chromosomes("chr7", "chr7").is_eq());
}
