//! Compact index set: construction, membership, union promotion, and the
//! self-describing serialized form.

use revindex::colors::Colors;
use revindex::datasets::Datasets;

fn roundtrip(d: &Datasets) -> Datasets {
    let bytes = d.as_bytes().expect("serializable");
    Datasets::from_slice(bytes.as_slice()).expect("decodable")
}

fn members_of(d: &Datasets) -> Vec<u32> {
    d.members()
}

#[test]
fn roundtrip_empty() {
    let d = Datasets::Empty;
    let bytes = d.as_bytes().unwrap();
    assert_eq!(bytes.len(), 1);
    let back = roundtrip(&d);
    assert!(matches!(back, Datasets::Empty));
    assert_eq!(members_of(&back), Vec::<u32>::new());
}

#[test]
fn roundtrip_single_zero() {
    let d = Datasets::new(&vec![0]);
    let bytes = d.as_bytes().unwrap();
    assert_eq!(bytes.len(), 8);
    let back = roundtrip(&d);
    assert_eq!(members_of(&back), vec![0]);
    assert!(back.contains(&0));
    assert!(!back.contains(&1));
}

#[test]
fn roundtrip_single_max() {
    let d = Datasets::new(&vec![u32::MAX]);
    let back = roundtrip(&d);
    assert_eq!(members_of(&back), vec![u32::MAX]);
}

#[test]
fn roundtrip_many() {
    let d = Datasets::new(&vec![1, 5, 1_000_000]);
    let bytes = d.as_bytes().unwrap();
    assert!(bytes.len() != 1 && bytes.len() != 8);
    let back = roundtrip(&d);
    assert_eq!(members_of(&back), vec![1, 5, 1_000_000]);
    assert_eq!(back.len(), 3);
    assert!(back.contains(&5));
    assert!(!back.contains(&6));
}

#[test]
fn from_slice_rejects_garbage() {
    // Two bytes are neither the empty sentinel nor a single index, and are
    // no valid compressed bitmap either.
    assert!(Datasets::from_slice(&[7u8, 9u8]).is_none());
}

#[test]
fn union_promotes_shapes() {
    // Empty with anything keeps the other side.
    let r = Datasets::Empty.union(Datasets::new(&vec![3]));
    assert_eq!(members_of(&r), vec![3]);

    // Equal singles stay single.
    let r = Datasets::new(&vec![4]).union(Datasets::new(&vec![4]));
    assert!(matches!(r, Datasets::Unique(4)));

    // Distinct singles promote to a set of two.
    let r = Datasets::new(&vec![9]).union(Datasets::new(&vec![2]));
    assert_eq!(members_of(&r), vec![2, 9]);
    assert!(matches!(r, Datasets::Many(_)));

    // Anything with a many-set stays a many-set.
    let r = Datasets::new(&vec![7]).union(Datasets::new(&vec![1, 5]));
    assert_eq!(members_of(&r), vec![1, 5, 7]);
    let r = Datasets::new(&vec![1, 5]).union(Datasets::new(&vec![5, 6]));
    assert_eq!(members_of(&r), vec![1, 5, 6]);
}

#[test]
fn extend_grows_membership() {
    let r = Datasets::Empty.extend(&vec![8, 3, 3, 1]);
    assert_eq!(members_of(&r), vec![1, 3, 8]);
    let r = r.extend(&vec![3, 10]);
    assert_eq!(members_of(&r), vec![1, 3, 8, 10]);
}

#[test]
fn color_determinism_fresh_tables() {
    // Deriving a color twice from the same member set yields the same id,
    // whatever shape spells the set.
    let a = Datasets::new(&vec![2, 7, 40]);
    let b = Datasets::new(&vec![2, 7, 40]);
    assert_eq!(a.color_hash(), b.color_hash());

    let s1 = Datasets::new(&vec![11]);
    let s2 = Datasets::Empty.extend(&vec![11]);
    assert_eq!(s1.color_hash(), s2.color_hash());

    // Different sets get different colors (no collision on these values).
    assert_ne!(a.color_hash(), s1.color_hash());
    assert_ne!(Datasets::Empty.color_hash(), s1.color_hash());
}

#[test]
fn colors_table_update_and_indices() {
    let mut t1 = Colors::new();
    let c1 = t1.update(None, &vec![3]).unwrap();
    // Merging a new index under an existing color rederives the color of
    // the merged set.
    let c2 = t1.update(Some(c1), &vec![5]).unwrap();
    assert_eq!(t1.indices(c2), vec![3, 5]);

    // A fresh table rederives the same ids for the same member sets.
    let mut t2 = Colors::new();
    let d1 = t2.update(None, &vec![3]).unwrap();
    let d2 = t2.update(Some(d1), &vec![5]).unwrap();
    assert_eq!(c1, d1);
    assert_eq!(c2, d2);

    // Merging the same indices again is stable.
    let c3 = t1.update(Some(c2), &vec![5]).unwrap();
    assert_eq!(c2, c3);
}
