//! Greedy containment decomposition: round statistics, thresholding, and
//! the monotonically shrinking remaining query weight.

use revindex::collection::{CollectionSet, KmerMinHash, Record, Selection};
use revindex::revindex::RevIndex;
use revindex::StorageSpec;

fn gsketch(mins: Vec<u64>) -> KmerMinHash {
    KmerMinHash { ksize: 21, scaled: 10000, mins }
}

fn grecord(name: &str, mins: Vec<u64>) -> Record {
    Record {
        name: String::from(name),
        storage_location: format!("{}.sig", name),
        sketch: gsketch(mins),
    }
}

fn gcollection(records: Vec<Record>) -> CollectionSet {
    let selection = Selection { ksize: 21, scaled: 10000 };
    let storage = StorageSpec::External(String::from("zip://sigs.zip"));
    CollectionSet::from_records(selection, storage, records).unwrap()
}

fn block(start: u64, n: u64) -> Vec<u64> {
    let mut v = Vec::new();
    let mut h = start;
    while h < start + n {
        v.push(h * 7 + 3);
        h += 1;
    }
    v
}

#[test]
fn gather_three_disjoint_references() {
    // Query = union of three disjoint references. Greedy rounds pick them
    // in decreasing size order, each fully contained in the query.
    let a = block(1000, 30);
    let b = block(2000, 20);
    let c = block(3000, 10);
    let mut q = a.clone();
    q.extend_from_slice(&b);
    q.extend_from_slice(&c);
    q.sort();

    let coll = gcollection(vec![
        grecord("ref-a", a),
        grecord("ref-b", b),
        grecord("ref-c", c),
    ]);
    let index = RevIndex::create(String::from("idx"), coll, false).unwrap();
    let query = gsketch(q);

    let (counter, query_colors, hash_to_color) =
        index.prepare_gather_counters(&query).unwrap();
    let matches = index
        .gather(counter, query_colors, hash_to_color, 0, &query, None)
        .unwrap();

    assert_eq!(matches.len(), 3);
    assert_eq!(matches[0].name(), "ref-a");
    assert_eq!(matches[1].name(), "ref-b");
    assert_eq!(matches[2].name(), "ref-c");

    // Exact integer statistics: 60 query hashes, scaled 10000.
    assert_eq!(matches[0].orig_query_size, 60);
    assert_eq!(matches[0].unique_count, 30);
    assert_eq!(matches[0].remaining_count, 30);
    assert_eq!(matches[0].unique_intersect_bp, 300000);
    assert_eq!(matches[0].remaining_bp, 300000);
    assert_eq!(matches[1].unique_count, 20);
    assert_eq!(matches[1].remaining_bp, 100000);
    assert_eq!(matches[2].unique_count, 10);
    assert_eq!(matches[2].remaining_bp, 0);

    // Fully contained references have a match fraction of one.
    for m in &matches {
        assert_eq!(m.intersect_orig as usize, m.match_size);
        let f_match = m.intersect_orig as f64 / m.match_size as f64;
        assert_eq!(f_match, 1.0);
    }
}

#[test]
fn gather_monotone_and_fractions_in_range() {
    // Overlapping references: remaining weight strictly shrinks each
    // round, and every unique-to-query fraction lies in [0, 1].
    let mut a = block(1000, 25);
    let mut b = block(1010, 25);
    let c = block(1020, 25);
    a.sort();
    b.sort();
    let mut q = a.clone();
    for h in b.iter().chain(c.iter()) {
        if !q.contains(h) {
            q.push(*h);
        }
    }
    q.sort();

    let coll = gcollection(vec![
        grecord("ov-a", a),
        grecord("ov-b", b),
        grecord("ov-c", c),
    ]);
    let index = RevIndex::create(String::from("idx"), coll, false).unwrap();
    let query = gsketch(q.clone());

    let (counter, query_colors, hash_to_color) =
        index.prepare_gather_counters(&query).unwrap();
    let matches = index
        .gather(counter, query_colors, hash_to_color, 0, &query, None)
        .unwrap();

    assert!(matches.len() >= 2);
    let mut prev_remaining = q.len() as u64;
    for m in &matches {
        assert!(m.unique_count >= 1);
        assert!(m.unique_count + m.remaining_count <= q.len() as u64);
        assert!(m.remaining_count < prev_remaining);
        let f_unique = m.unique_count as f64 / m.orig_query_size as f64;
        assert!((0.0..=1.0).contains(&f_unique));
        prev_remaining = m.remaining_count;
    }
}

#[test]
fn gather_twelve_references_threshold() {
    // Twelve disjoint references of distinct sizes; one is too small for
    // the threshold, so exactly eleven ranked matches come back, the top
    // one fully contained.
    let mut records = Vec::new();
    let mut q: Vec<u64> = Vec::new();
    for i in 0..12u64 {
        let size = if i == 11 { 3 } else { 20 - i };
        let mins = block(10_000 * (i + 1), size);
        q.extend_from_slice(&mins);
        records.push(grecord(&format!("ref-{}", i), mins));
    }
    q.sort();

    let coll = gcollection(records);
    let index = RevIndex::create(String::from("idx"), coll, false).unwrap();
    let query = gsketch(q);

    let (counter, query_colors, hash_to_color) =
        index.prepare_gather_counters(&query).unwrap();
    let matches = index
        .gather(counter, query_colors, hash_to_color, 5, &query, None)
        .unwrap();

    assert_eq!(matches.len(), 11);
    assert_eq!(matches[0].name(), "ref-0");
    let f_match = matches[0].intersect_orig as f64 / matches[0].match_size as f64;
    assert_eq!(f_match, 1.0);
    for m in &matches {
        assert!(m.unique_count >= 5);
    }
}

#[test]
fn gather_config_mismatch_at_preparation() {
    let coll = gcollection(vec![grecord("only", block(1, 5))]);
    let index = RevIndex::create(String::from("idx"), coll, false).unwrap();
    let wrong = KmerMinHash { ksize: 31, scaled: 10000, mins: block(1, 5) };
    match index.prepare_gather_counters(&wrong) {
        Err(revindex::Error::ConfigMismatch) => {}
        _ => panic!("an incompatible query must be refused at preparation time"),
    }
}

#[test]
fn gather_selection_mismatch_refused() {
    let coll = gcollection(vec![grecord("only", block(1, 5))]);
    let index = RevIndex::create(String::from("idx"), coll, false).unwrap();
    let query = gsketch(block(1, 5));
    let (counter, query_colors, hash_to_color) =
        index.prepare_gather_counters(&query).unwrap();
    let bad_selection = Selection { ksize: 31, scaled: 10000 };
    match index.gather(
        counter,
        query_colors,
        hash_to_color,
        0,
        &query,
        Some(bad_selection),
    ) {
        Err(revindex::Error::ConfigMismatch) => {}
        _ => panic!("a mismatched selection must be refused"),
    }
}
