//! Building, searching, updating and merging the reverse index.

use revindex::collection::{CollectionSet, KmerMinHash, Record, Selection, Signature, Sketch};
use revindex::collection::prepare_query;
use revindex::colors::Colors;
use revindex::hash_to_color::HashToColor;
use revindex::revindex::RevIndex;
use revindex::StorageSpec;

fn sketch31(mins: Vec<u64>) -> KmerMinHash {
    KmerMinHash { ksize: 31, scaled: 10000, mins }
}

fn record31(name: &str, mins: Vec<u64>) -> Record {
    Record {
        name: String::from(name),
        storage_location: format!("{}.sig", name),
        sketch: sketch31(mins),
    }
}

fn collection31(records: Vec<Record>) -> CollectionSet {
    let selection = Selection { ksize: 31, scaled: 10000 };
    let storage = StorageSpec::External(String::from("zip://sigs.zip"));
    CollectionSet::from_records(selection, storage, records).unwrap()
}

fn range_mins(start: u64, n: u64) -> Vec<u64> {
    let mut v = Vec::new();
    let mut h = start;
    while h < start + n {
        v.push(h * 1000);
        h += 1;
    }
    v
}

#[test]
fn build_and_search_three_datasets() {
    // Three disjoint datasets; querying with the first yields exactly one
    // match, at a count of the full sketch size.
    let q_mins = range_mins(1, 48);
    let coll = collection31(vec![
        record31("genome-s10", q_mins.clone()),
        record31("genome-s11", range_mins(100, 52)),
        record31("genome-s12", range_mins(200, 60)),
    ]);
    let index = RevIndex::create(String::from("idx"), coll, false).unwrap();

    let query = sketch31(q_mins);
    let counter = index.counter_for_query(&query);
    let matches = index.matches_from_counter(counter, 0);

    assert_eq!(matches, [(String::from("genome-s10"), 48)]);
}

#[test]
fn create_colored_backend_refused() {
    let coll = collection31(vec![record31("a", range_mins(1, 4))]);
    match RevIndex::create(String::from("idx"), coll, true) {
        Err(revindex::Error::UnsupportedVariant) => {}
        _ => panic!("the colored backend must be refused explicitly"),
    }
}

#[test]
fn update_extends_index() {
    // Build over two datasets, then extend with a third; querying with the
    // third finds it on top at its full overlap count.
    let coll2 = collection31(vec![
        record31("genome-s10", range_mins(1, 48)),
        record31("genome-s11", range_mins(100, 52)),
    ]);
    let index = RevIndex::create(String::from("idx"), coll2, false).unwrap();

    let third = range_mins(300, 45);
    let coll3 = collection31(vec![
        record31("genome-s10", range_mins(1, 48)),
        record31("genome-s11", range_mins(100, 52)),
        record31("genome-s12", third.clone()),
    ]);
    let index = index.update(coll3).unwrap();

    let query = sketch31(third);
    let counter = index.counter_for_query(&query);
    let matches = index.matches_from_counter(counter, 0);

    assert_eq!(matches[0].0, String::from("genome-s12"));
    assert_eq!(matches[0].1, 45);
}

#[test]
fn update_on_read_only_fails() {
    let coll = collection31(vec![record31("a", range_mins(1, 4))]);
    let index = RevIndex::create(String::from("idx"), coll, false).unwrap();
    let (hash_rows, color_rows) = index.dump_rows();
    let reopened = RevIndex::open(
        revindex::revindex::IndexDump {
            cf_names: vec![
                String::from("metadata"),
                String::from("hashes"),
                String::from("color_sets"),
            ],
            version: 1,
            storage_spec: StorageSpec::Internal,
            location: String::from("idx"),
            collection: collection31(vec![record31("a", range_mins(1, 4))]),
            hash_rows,
            color_rows,
        },
        true,
        None,
        true,
    )
    .unwrap();
    let coll2 = collection31(vec![
        record31("a", range_mins(1, 4)),
        record31("b", range_mins(50, 6)),
    ]);
    match reopened.update(coll2) {
        Err(revindex::Error::ReadOnlyViolation) => {}
        _ => panic!("mutating a read-only handle must fail loudly"),
    }
}

#[test]
fn counter_matches_brute_force() {
    // Overlapping datasets: each count equals a brute-force count of query
    // hashes whose member set contains that dataset.
    let a = vec![10, 20, 30, 40, 50];
    let b = vec![30, 40, 50, 60];
    let c = vec![50, 60, 70];
    let coll = collection31(vec![
        record31("a", a.clone()),
        record31("b", b.clone()),
        record31("c", c.clone()),
    ]);
    let index = RevIndex::create(String::from("idx"), coll, false).unwrap();

    let q = vec![20, 30, 50, 60, 99];
    let counter = index.counter_for_query(&sketch31(q.clone()));

    let sets = [&a, &b, &c];
    for (i, mins) in sets.iter().enumerate() {
        let mut expected = 0u64;
        for h in &q {
            if mins.contains(h) {
                expected += 1;
            }
        }
        assert_eq!(counter.counts[i], expected);
    }
}

#[test]
fn matches_order_count_desc_then_index() {
    // Equal counts break ties by ascending dataset index.
    let coll = collection31(vec![
        record31("a", vec![10, 20]),
        record31("b", vec![10, 20, 30]),
        record31("c", vec![10, 20]),
    ]);
    let index = RevIndex::create(String::from("idx"), coll, false).unwrap();
    let counter = index.counter_for_query(&sketch31(vec![10, 20, 30]));
    let matches = index.matches_from_counter(counter, 0);
    assert_eq!(
        matches,
        [
            (String::from("b"), 3),
            (String::from("a"), 2),
            (String::from("c"), 2),
        ]
    );
}

#[test]
fn matches_respects_threshold() {
    let coll = collection31(vec![
        record31("a", vec![10, 20]),
        record31("b", vec![10, 20, 30]),
    ]);
    let index = RevIndex::create(String::from("idx"), coll, false).unwrap();
    let counter = index.counter_for_query(&sketch31(vec![10, 20, 30]));
    let matches = index.matches_from_counter(counter, 3);
    assert_eq!(matches, [(String::from("b"), 3)]);
}

#[test]
fn prepare_query_selects_first_compatible_minhash() {
    let sel = Selection { ksize: 31, scaled: 10000 };
    let sig = Signature {
        sketches: vec![
            Sketch::HyperLogLog,
            Sketch::MinHash(KmerMinHash { ksize: 21, scaled: 10000, mins: vec![1] }),
            Sketch::MinHash(sketch31(vec![5, 6])),
        ],
    };
    let mh = prepare_query(sig, &sel).unwrap();
    assert_eq!(mh.mins, vec![5, 6]);
    assert_eq!(mh.ksize, 31);

    let none = prepare_query(
        Signature { sketches: vec![Sketch::HyperLogLog] },
        &sel,
    );
    assert!(none.is_none());
}

fn resolved_members(h2c: &HashToColor, colors: &Colors, hash: u64) -> Option<Vec<u32>> {
    h2c.get(&hash).map(|c| colors.indices(c))
}

#[test]
fn reduce_matches_direct_build() {
    // Merge equivalence: building per-dataset pairs and reducing them, in
    // either grouping, resolves every hash exactly as the direct build.
    let sets: [Vec<u64>; 3] = [
        vec![10, 20, 30, 40],
        vec![30, 40, 50],
        vec![20, 50, 60],
    ];
    let all_hashes = vec![10, 20, 30, 40, 50, 60];

    let mut pairs = Vec::new();
    for (i, mins) in sets.iter().enumerate() {
        let mut h = HashToColor::new();
        let mut c = Colors::new();
        h.add_to(&mut c, i as u32, mins.clone()).unwrap();
        pairs.push((h, c));
    }
    let p2 = pairs.pop().unwrap();
    let p1 = pairs.pop().unwrap();
    let p0 = pairs.pop().unwrap();

    let left = HashToColor::reduce_hashes_colors(
        HashToColor::reduce_hashes_colors(p0, p1).unwrap(),
        p2,
    )
    .unwrap();

    let coll = collection31(vec![
        record31("a", sets[0].clone()),
        record31("b", sets[1].clone()),
        record31("c", sets[2].clone()),
    ]);
    let direct = RevIndex::create(String::from("idx"), coll, false).unwrap();
    let (dh, dc) = match &direct {
        RevIndex::Plain(d) => (&d.hash_to_color, &d.colors),
    };

    for h in &all_hashes {
        let merged = resolved_members(&left.0, &left.1, *h);
        let built = resolved_members(dh, dc, *h);
        assert_eq!(merged, built);
    }
    assert_eq!(left.0.len(), dh.len());
}
