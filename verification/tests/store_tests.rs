//! Tests of the record store: pack, finalize, reopen, and the three
//! query paths, including the spec's concrete end-to-end scenarios.

use hgindex::binning::BinningSchema;
use hgindex::records::{BedRecord, BedRecordSlice, Record, RecordSlice};
use hgindex::store::{GenomicDataStore, RecordVisitor};
use hgindex::HgIndexError;

fn bed(start: u32, end: u32, rest: &str) -> BedRecord {
    BedRecord { start, end, rest: rest.as_bytes().to_vec() }
}

fn make_test_records() -> Vec<(String, BedRecord)> {
    vec![
        ("chr1".to_string(), bed(1000, 2000, "feature1\t0.5\texon,coding")),
        ("chr1".to_string(), bed(1500, 2500, "feature2\t0.8\tpromoter")),
        ("chr2".to_string(), bed(50000, 60000, "feature3\t0.3\tintron")),
    ]
}

/// Pack the records, finalize, and reopen through the index-file bytes,
/// attaching each sequence's data bytes.
fn reopen(store: &mut GenomicDataStore<BedRecord>, chroms: &[&str]) -> GenomicDataStore<BedRecord> {
    let index_bytes = store.finalize();
    let mut reopened: GenomicDataStore<BedRecord> =
        GenomicDataStore::open(&index_bytes).expect("Failed to open store");
    for chrom in chroms {
        if let Some(bytes) = store.data_bytes(chrom) {
            reopened
                .open_chrom_file(chrom, bytes.clone())
                .expect("Failed to attach data");
        }
    }
    reopened
}

#[test]
fn test_store_and_retrieve() {
    // Create store and add records
    let mut store: GenomicDataStore<BedRecord> = GenomicDataStore::create();
    for (chrom, record) in make_test_records() {
        store.add_record(&chrom, &record).expect("Failed to add record");
    }

    let store = reopen(&mut store, &["chr1", "chr2"]);

    // Overlapping query
    let results = store.get_overlapping("chr1", 1200, 1800).unwrap();
    assert_eq!(results.len(), 2);
    assert_eq!(results[0].rest, b"feature1\t0.5\texon,coding".to_vec());
    assert_eq!(results[1].rest, b"feature2\t0.8\tpromoter".to_vec());

    // Non-overlapping region
    let results = store.get_overlapping("chr1", 3000, 4000).unwrap();
    assert_eq!(results.len(), 0);

    // Different chromosome
    let results = store.get_overlapping("chr2", 55000, 58000).unwrap();
    assert_eq!(results.len(), 1);
    assert_eq!(results[0].rest, b"feature3\t0.3\tintron".to_vec());
}

#[test]
fn test_invalid_file() {
    // A data buffer with a bad magic is refused.
    let mut store: GenomicDataStore<BedRecord> = GenomicDataStore::create();
    store.add_record("chr1", &bed(10, 20, "x")).unwrap();
    let index_bytes = store.finalize();
    let mut reopened: GenomicDataStore<BedRecord> = GenomicDataStore::open(&index_bytes).unwrap();
    let result = reopened.open_chrom_file("chr1", b"BAD!rest-of-file".to_vec());
    assert!(matches!(result, Err(HgIndexError::InvalidFileFormat)));

    // An index file with a bad shape is refused.
    assert!(GenomicDataStore::<BedRecord>::open(b"not an index").is_err());
}

#[test]
fn test_empty_regions() {
    let mut store: GenomicDataStore<BedRecord> = GenomicDataStore::create();

    let index_bytes = store.finalize();

    // Query the reopened empty store
    let store: GenomicDataStore<BedRecord> =
        GenomicDataStore::open(&index_bytes).expect("Failed to open store");

    let results = store.get_overlapping("chr1", 0, 1000).unwrap();
    assert_eq!(results.len(), 0);
}

struct Collector {
    out: Vec<BedRecord>,
}

impl RecordVisitor for Collector {
    fn visit(&mut self, payload: &[u8]) -> Result<(), HgIndexError> {
        let slice = BedRecordSlice::from_bytes(payload);
        self.out.push(slice.to_owned());
        Ok(())
    }
}

#[test]
fn test_map_vs_get_consistency() {
    let mut store: GenomicDataStore<BedRecord> = GenomicDataStore::create();
    for (chrom, record) in make_test_records() {
        store.add_record(&chrom, &record).expect("Failed to add record");
    }
    let store = reopen(&mut store, &["chr1", "chr2"]);

    let queries = vec![
        ("chr1", 1200u32, 1800u32),
        ("chr1", 0, 3000),
        ("chr2", 50000, 60000),
        ("chr2", 55000, 58000),
        ("chr3", 0, 10000),
    ];

    for (chrom, start, end) in queries {
        let get_results = store.get_overlapping(chrom, start, end).unwrap();

        let mut collector = Collector { out: Vec::new() };
        let count = store.map_overlapping(chrom, start, end, &mut collector).unwrap();

        assert_eq!(
            get_results, collector.out,
            "Mismatch for chrom: {}, start: {}, end: {}",
            chrom, start, end
        );
        assert_eq!(count, get_results.len());

        // The zero-copy batch agrees as well.
        let batch = store.get_overlapping_batch(chrom, start, end).unwrap();
        let owned: Vec<BedRecord> = batch
            .iter()
            .map(|payload| BedRecordSlice::from_bytes(payload).to_owned())
            .collect();
        assert_eq!(get_results, owned);
    }
}

#[test]
fn test_metadata_storage_and_retrieval() {
    let metadata: Vec<u8> = b"build=hg38\tsource=unit".to_vec();

    let mut store: GenomicDataStore<BedRecord> = GenomicDataStore::create();
    store.add_record("chr1", &bed(1000, 2000, "feature1")).unwrap();
    let index_bytes = store.finalize_with_metadata(&metadata);

    let reopened: GenomicDataStore<BedRecord> = GenomicDataStore::open(&index_bytes).unwrap();
    let retrieved = reopened.metadata();
    assert!(retrieved.is_some());
    assert_eq!(retrieved.unwrap(), metadata);

    // A store finalized without metadata has none.
    let mut bare: GenomicDataStore<BedRecord> = GenomicDataStore::create();
    let bare_bytes = bare.finalize();
    let bare_open: GenomicDataStore<BedRecord> = GenomicDataStore::open(&bare_bytes).unwrap();
    assert!(bare_open.metadata().is_none());
}

#[test]
fn test_overlap_with_adjacent_features() {
    // Three records; queries pick exactly the overlapping ones.
    let mut store: GenomicDataStore<BedRecord> = GenomicDataStore::create();
    store.add_record("chr1", &bed(1000, 2000, "a")).unwrap();
    store.add_record("chr1", &bed(1500, 2500, "b")).unwrap();
    store.add_record("chr1", &bed(5000, 6000, "c")).unwrap();
    store.finalize();

    let results = store.get_overlapping("chr1", 1200, 1800).unwrap();
    assert_eq!(results.len(), 2);
    assert!(store.get_overlapping("chr1", 3000, 4000).unwrap().is_empty());
    let results = store.get_overlapping("chr1", 5500, 5600).unwrap();
    assert_eq!(results.len(), 1);
    assert_eq!(results[0].rest, b"c".to_vec());
}

#[test]
fn test_half_open_boundaries() {
    // Touching endpoints do not overlap.
    let mut store: GenomicDataStore<BedRecord> = GenomicDataStore::create();
    store.add_record("chr1", &bed(100, 200, "first")).unwrap();
    store.add_record("chr1", &bed(200, 300, "second")).unwrap();
    store.finalize();

    let results = store.get_overlapping("chr1", 200, 201).unwrap();
    assert_eq!(results.len(), 1);
    assert_eq!(results[0].rest, b"second".to_vec());

    let results = store.get_overlapping("chr1", 199, 200).unwrap();
    assert_eq!(results.len(), 1);
    assert_eq!(results[0].rest, b"first".to_vec());
}

#[test]
fn test_single_base_features() {
    let mut store: GenomicDataStore<BedRecord> = GenomicDataStore::create();
    store.add_record("chr1", &bed(40, 41, "point")).unwrap();
    store.finalize();

    assert_eq!(store.get_overlapping("chr1", 40, 41).unwrap().len(), 1);
    assert!(store.get_overlapping("chr1", 41, 42).unwrap().is_empty());
}

#[test]
fn test_zero_length_rejection() {
    let mut store: GenomicDataStore<BedRecord> = GenomicDataStore::create();
    assert!(matches!(
        store.add_record("chr1", &bed(100, 100, "")),
        Err(HgIndexError::ZeroLengthFeature(100, 100))
    ));
    assert!(matches!(
        store.add_record("chr1", &bed(200, 100, "")),
        Err(HgIndexError::ZeroLengthFeature(200, 100))
    ));
}

#[test]
fn test_bin_boundary_span() {
    // With the tabix scheme (16384-base finest bins) a record crossing a
    // finest-bin boundary is found from either side.
    let mut store: GenomicDataStore<BedRecord> =
        GenomicDataStore::create_with_schema(&BinningSchema::Tabix);
    store.add_record("chr1", &bed(16284, 16484, "spanning")).unwrap();
    store.finalize();

    assert_eq!(store.get_overlapping("chr1", 16284, 16384).unwrap().len(), 1);
    assert_eq!(store.get_overlapping("chr1", 16384, 16484).unwrap().len(), 1);
    assert_eq!(store.get_overlapping("chr1", 16284, 16484).unwrap().len(), 1);
    assert_eq!(store.get_overlapping("chr1", 16400, 16410).unwrap().len(), 1);
}

#[test]
fn test_cross_schema_equivalence() {
    // Different schemas lay the index out differently but answer every
    // query with the same set of records.
    let records = vec![
        (12u32, 340u32),
        (300, 20000),
        (16000, 17000),
        (17000, 200_000),
        (199_999, 200_001),
        (1_000_000, 1_500_000),
    ];
    let mut dense: GenomicDataStore<BedRecord> =
        GenomicDataStore::create_with_schema(&BinningSchema::Dense);
    let mut ucsc: GenomicDataStore<BedRecord> =
        GenomicDataStore::create_with_schema(&BinningSchema::Ucsc);
    for (i, (s, e)) in records.iter().enumerate() {
        let rec = bed(*s, *e, &format!("r{}", i));
        dense.add_record("chr1", &rec).unwrap();
        ucsc.add_record("chr1", &rec).unwrap();
    }
    dense.finalize();
    ucsc.finalize();

    let queries = vec![(0u32, 50u32), (100, 400), (16500, 16800), (0, 2_000_000), (250_000, 900_000)];
    for (q0, q1) in queries {
        let mut a = dense.get_overlapping("chr1", q0, q1).unwrap();
        let mut b = ucsc.get_overlapping("chr1", q0, q1).unwrap();
        a.sort_by_key(|r| (r.start, r.end));
        b.sort_by_key(|r| (r.start, r.end));
        assert_eq!(a, b, "query [{}, {})", q0, q1);
    }
}

#[test]
fn test_query_rejects_inverted_interval() {
    let mut store: GenomicDataStore<BedRecord> = GenomicDataStore::create();
    store.add_record("chr1", &bed(10, 20, "x")).unwrap();
    store.finalize();
    assert!(matches!(
        store.get_overlapping("chr1", 50, 50),
        Err(HgIndexError::InvalidInterval { start: 50, end: 50 })
    ));
    assert!(matches!(
        store.get_overlapping("chr1", 60, 50),
        Err(HgIndexError::InvalidInterval { start: 60, end: 50 })
    ));
}

#[test]
fn test_query_before_finalize_is_refused() {
    // A buffer still open for writing cannot be read.
    let mut store: GenomicDataStore<BedRecord> = GenomicDataStore::create();
    store.add_record("chr1", &bed(10, 20, "x")).unwrap();
    assert!(matches!(
        store.get_overlapping("chr1", 0, 100),
        Err(HgIndexError::StringError(_))
    ));
}

#[test]
fn test_add_after_finalize_is_refused() {
    let mut store: GenomicDataStore<BedRecord> = GenomicDataStore::create();
    store.add_record("chr1", &bed(10, 20, "x")).unwrap();
    store.finalize();
    assert!(matches!(
        store.add_record("chr1", &bed(30, 40, "y")),
        Err(HgIndexError::StringError(_))
    ));
}

#[test]
fn test_bed_record_round_trip() {
    let rec = bed(7, 4096, "name\t0.25\t+");
    let bytes = rec.to_bytes();
    let back = BedRecord::from_bytes(&bytes);
    assert_eq!(rec, back);
    let slice = BedRecordSlice::from_bytes(&bytes);
    assert_eq!(slice.start(), 7);
    assert_eq!(slice.end(), 4096);
    assert_eq!(slice.to_owned(), rec);
}

#[test]
fn test_record_framing_offsets() {
    // Two records frame back to back after the 4-byte magic: the first
    // frame starts at offset 4, the second after 8 + payload bytes.
    let mut store: GenomicDataStore<BedRecord> = GenomicDataStore::create();
    let r1 = bed(1, 10, "ab");
    let r2 = bed(5, 12, "cdef");
    store.add_record("chr9", &r1).unwrap();
    store.add_record("chr9", &r2).unwrap();
    store.finalize();
    let data = store.data_bytes("chr9").unwrap();
    assert_eq!(&data[0..4], b"GIDX");
    let l1 = (r1.to_bytes().len()) as u64;
    assert_eq!(&data[4..12], &l1.to_le_bytes());
    assert_eq!(data.len(), 4 + 8 + r1.to_bytes().len() + 8 + r2.to_bytes().len());
}

struct FailAfter {
    budget: usize,
    seen: usize,
}

impl RecordVisitor for FailAfter {
    fn visit(&mut self, _payload: &[u8]) -> Result<(), HgIndexError> {
        if self.seen == self.budget {
            return Err(HgIndexError::StringError("visitor gave up".to_string()));
        }
        self.seen += 1;
        Ok(())
    }
}

#[test]
fn test_map_overlapping_abort() {
    // A visitor failure aborts the iteration with that error after the
    // earlier candidates were visited in order.
    let mut store: GenomicDataStore<BedRecord> = GenomicDataStore::create();
    store.add_record("chr1", &bed(10, 20, "a")).unwrap();
    store.add_record("chr1", &bed(15, 30, "b")).unwrap();
    store.add_record("chr1", &bed(18, 40, "c")).unwrap();
    store.finalize();

    let mut fun = FailAfter { budget: 1, seen: 0 };
    let result = store.map_overlapping("chr1", 0, 100, &mut fun);
    assert!(matches!(result, Err(HgIndexError::StringError(_))));
    assert_eq!(fun.seen, 1);

    // A visitor with enough budget sees every record.
    let mut fun = FailAfter { budget: 3, seen: 0 };
    assert_eq!(store.map_overlapping("chr1", 0, 100, &mut fun).unwrap(), 3);
    assert_eq!(fun.seen, 3);
}
