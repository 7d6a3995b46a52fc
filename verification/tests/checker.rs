//! The consistency checker: byte totals, deep decoding, the distinct
//! dataset count, and corruption reporting.

use revindex::collection::{CollectionSet, KmerMinHash, Record, Selection};
use revindex::revindex::RevIndex;
use revindex::stats::stats_for_cf;
use revindex::StorageSpec;

fn csketch(mins: Vec<u64>) -> KmerMinHash {
    KmerMinHash { ksize: 31, scaled: 10000, mins }
}

fn ccollection(records: Vec<Record>) -> CollectionSet {
    let selection = Selection { ksize: 31, scaled: 10000 };
    let storage = StorageSpec::Internal;
    CollectionSet::from_records(selection, storage, records).unwrap()
}

fn crecord(name: &str, mins: Vec<u64>) -> Record {
    Record {
        name: String::from(name),
        storage_location: format!("{}.sig", name),
        sketch: csketch(mins),
    }
}

#[test]
fn deep_check_counts_distinct_datasets() {
    let coll = ccollection(vec![
        crecord("a", vec![10, 20, 30]),
        crecord("b", vec![20, 30, 40]),
        crecord("c", vec![30, 40, 50]),
    ]);
    let index = RevIndex::create(String::from("idx"), coll, false).unwrap();
    let stats = index.check(false).unwrap();
    assert_eq!(stats.total_datasets(), 3);
    assert_eq!(stats.kcount(), stats.total_keys() * 8);
    assert!(stats.vcount() > 0);
}

#[test]
fn quick_check_skips_decoding() {
    let coll = ccollection(vec![crecord("a", vec![10, 20])]);
    let index = RevIndex::create(String::from("idx"), coll, false).unwrap();
    let stats = index.check(true).unwrap();
    assert_eq!(stats.total_datasets(), 0);
    assert!(stats.kcount() > 0);
}

#[test]
fn stats_totals_are_raw_byte_sums() {
    // One empty-set value (1 byte), one single-index value (8 bytes).
    let rows = vec![
        (vec![0u8; 8], vec![42u8]),
        (vec![1u8; 8], vec![5, 0, 0, 0, 0, 0, 0, 0]),
    ];
    let stats = stats_for_cf(&rows, true, false).unwrap();
    assert_eq!(stats.kcount(), 16);
    assert_eq!(stats.total_keys(), 2);
    assert_eq!(stats.vcount(), 9);
    // The union of {} and {5} holds one distinct dataset.
    assert_eq!(stats.total_datasets(), 1);
}

#[test]
fn deep_check_surfaces_first_corrupt_entry() {
    // A three-byte value decodes as nothing: fatal in deep mode,
    // invisible in quick mode.
    let rows = vec![(vec![0u8; 8], vec![1u8, 2u8, 3u8])];
    match stats_for_cf(&rows, true, false) {
        Err(revindex::Error::CorruptEntry) => {}
        _ => panic!("an undecodable value must be fatal in deep mode"),
    }
    let quick = stats_for_cf(&rows, true, true).unwrap();
    assert_eq!(quick.vcount(), 3);
}
