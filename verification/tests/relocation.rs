//! Persisted layout: dumping partitions, reopening from them, storage
//! internalization and relocation, and the open-time error taxonomy.

use revindex::collection::{CollectionSet, KmerMinHash, Record, Selection};
use revindex::revindex::{IndexDump, RevIndex};
use revindex::StorageSpec;

fn rsketch(mins: Vec<u64>) -> KmerMinHash {
    KmerMinHash { ksize: 31, scaled: 10000, mins }
}

fn rrecord(name: &str, mins: Vec<u64>) -> Record {
    Record {
        name: String::from(name),
        storage_location: format!("{}.sig", name),
        sketch: rsketch(mins),
    }
}

fn rcollection(records: Vec<Record>) -> CollectionSet {
    let selection = Selection { ksize: 31, scaled: 10000 };
    let storage = StorageSpec::External(String::from("zip://sigs.zip"));
    CollectionSet::from_records(selection, storage, records).unwrap()
}

fn sample_records() -> Vec<Record> {
    vec![
        rrecord("nc-1", vec![100, 200, 300, 400]),
        rrecord("nc-2", vec![300, 400, 500]),
    ]
}

fn plain_cf_names() -> Vec<String> {
    vec![
        String::from("metadata"),
        String::from("hashes"),
        String::from("color_sets"),
    ]
}

fn dump_of(index: &RevIndex, location: &str, spec: StorageSpec) -> IndexDump {
    let (hash_rows, color_rows) = index.dump_rows();
    IndexDump {
        cf_names: plain_cf_names(),
        version: 1,
        storage_spec: spec,
        location: String::from(location),
        collection: rcollection(sample_records()),
        hash_rows,
        color_rows,
    }
}

fn matches_of(index: &RevIndex, query: &KmerMinHash) -> Vec<(String, usize)> {
    let counter = index.counter_for_query(query);
    index.matches_from_counter(counter, 0)
}

#[test]
fn reopen_preserves_query_results() {
    let index = RevIndex::create(String::from("idx"), rcollection(sample_records()), false)
        .unwrap();
    let query = rsketch(vec![100, 200, 300, 400]);
    let before = matches_of(&index, &query);

    let dump = dump_of(&index, "idx", StorageSpec::External(String::from("zip://sigs.zip")));
    let reopened = RevIndex::open(dump, true, None, true).unwrap();
    let after = matches_of(&reopened, &query);
    assert_eq!(before, after);
}

#[test]
fn internalize_then_move_keeps_results() {
    // After internalizing storage, the index is self-contained: moving its
    // backing location and reopening without an override yields identical
    // results.
    let mut index =
        RevIndex::create(String::from("idx"), rcollection(sample_records()), false).unwrap();
    let query = rsketch(vec![100, 200, 300, 400]);
    let before = matches_of(&index, &query);

    index.internalize_storage().unwrap();

    // The spec is now internal, so the open needs no accessible external
    // storage even at a new location.
    let dump = dump_of(&index, "moved-idx", StorageSpec::Internal);
    let moved = RevIndex::open(dump, false, None, false).unwrap();
    let after = matches_of(&moved, &query);
    assert_eq!(before, after);
}

#[test]
fn moved_external_storage_needs_override() {
    let index = RevIndex::create(String::from("idx"), rcollection(sample_records()), false)
        .unwrap();

    // The external archive is gone: opening without an override fails.
    let dump = dump_of(&index, "idx", StorageSpec::External(String::from("zip://old.zip")));
    match RevIndex::open(dump, false, None, false) {
        Err(revindex::Error::MovedStorage) => {}
        _ => panic!("unresolvable external storage must be a moved-storage error"),
    }

    // An override repoints the storage without rewriting the index.
    let dump = dump_of(&index, "idx", StorageSpec::External(String::from("zip://old.zip")));
    let reopened = RevIndex::open(
        dump,
        false,
        Some(StorageSpec::Internal),
        true,
    )
    .unwrap();
    let query = rsketch(vec![300]);
    let m = matches_of(&reopened, &query);
    assert_eq!(m.len(), 2);
}

#[test]
fn open_missing_partitions_is_not_found() {
    let index = RevIndex::create(String::from("idx"), rcollection(sample_records()), false)
        .unwrap();
    let mut dump = dump_of(&index, "idx", StorageSpec::Internal);
    dump.cf_names = vec![String::from("something_else")];
    match RevIndex::open(dump, true, None, true) {
        Err(revindex::Error::NotFound) => {}
        _ => panic!("an index without its partitions is not a valid index"),
    }
}

#[test]
fn open_wrong_version_is_not_found() {
    let index = RevIndex::create(String::from("idx"), rcollection(sample_records()), false)
        .unwrap();
    let mut dump = dump_of(&index, "idx", StorageSpec::Internal);
    dump.version = 9;
    match RevIndex::open(dump, true, None, true) {
        Err(revindex::Error::NotFound) => {}
        _ => panic!("an unknown format version is not a valid index"),
    }
}

#[test]
fn open_color_variant_refused() {
    let index = RevIndex::create(String::from("idx"), rcollection(sample_records()), false)
        .unwrap();

    // Read-only open of the color-table variant is refused outright.
    let mut dump = dump_of(&index, "idx", StorageSpec::Internal);
    dump.cf_names.push(String::from("colors"));
    match RevIndex::open(dump, true, None, true) {
        Err(revindex::Error::ReadOnlyViolation) => {}
        _ => panic!("the color-table variant must refuse read-only opens"),
    }

    // A writable open still finds an unimplemented backend.
    let mut dump = dump_of(&index, "idx", StorageSpec::Internal);
    dump.cf_names.push(String::from("colors"));
    match RevIndex::open(dump, false, None, true) {
        Err(revindex::Error::UnsupportedVariant) => {}
        _ => panic!("the color-table variant is an unimplemented backend"),
    }
}

#[test]
fn open_corrupt_rows_rejected() {
    let index = RevIndex::create(String::from("idx"), rcollection(sample_records()), false)
        .unwrap();
    let mut dump = dump_of(&index, "idx", StorageSpec::Internal);
    dump.hash_rows.push((vec![1, 2, 3], vec![0, 0, 0, 0, 0, 0, 0, 0]));
    match RevIndex::open(dump, true, None, true) {
        Err(revindex::Error::CorruptEntry) => {}
        _ => panic!("a malformed hash row is a corrupt entry"),
    }
}

#[test]
fn convert_is_query_equivalent() {
    let index = RevIndex::create(String::from("idx"), rcollection(sample_records()), false)
        .unwrap();
    let empty = rcollection(Vec::new());
    let mut target = RevIndex::create(String::from("idx2"), empty, false).unwrap();
    index.convert(&mut target).unwrap();

    let query = rsketch(vec![100, 300, 500]);
    assert_eq!(matches_of(&index, &query), matches_of(&target, &query));
    index.compact();
    index.flush().unwrap();
}
