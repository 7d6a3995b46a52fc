//! The library's standing laws, stated once and proved from the
//! specifications the public contracts are written in.

use crate::collection::CollectionSet;
use crate::colors::{color_of_seq, color_of_set};
use crate::hash_to_color::union_resolved;
use crate::query::overlap_count;
use crate::seqs::{ascending, lemma_ascending_unique};
use vstd::prelude::*;

verus! {

/// Color determinism: deriving a color from a member set depends on the
/// members alone — any two sorted spellings of the same set, in any two
/// tables or processes, yield the same color id. This is what lets
/// independently built tables be merged.
pub proof fn lemma_color_determinism(q1: Seq<u32>, q2: Seq<u32>)
    requires
        ascending(q1),
        ascending(q2),
        q1.to_set() == q2.to_set(),
    ensures
        color_of_seq(q1) == color_of_seq(q2),
        color_of_set(q1.to_set()) == color_of_seq(q1),
{
    lemma_ascending_unique(q1, q2);
    crate::colors::lemma_member_seq_of_ascending(q1);
}

/// The hash-to-member-set mapping of one group of datasets within a
/// collection: each hash one of them contains, resolved to the group's
/// members containing it.
pub open spec fn sub_mapping(coll: CollectionSet, ds: Set<u32>) -> Map<u64, Set<u32>> {
    Map::new(
        |h: u64|
            exists|d: u32|
                #[trigger] ds.contains(d) && 0 <= d < coll.records@.len()
                    && coll.records@[d as int].sketch.mins@.contains(h),
        |h: u64|
            Set::new(
                |x: u32|
                    ds.contains(x) && 0 <= x < coll.records@.len()
                        && coll.records@[x as int].sketch.mins@.contains(h),
            ),
    )
}

/// Populating a fresh pair for one dataset — which maps each of its hashes
/// to the singleton member set of its index — yields exactly that
/// dataset's group mapping. Together with the reduction's pointwise-union
/// contract and the group-union law below, any reduction tree over
/// per-dataset pairs equals the direct build.
pub proof fn lemma_single_dataset_mapping(coll: CollectionSet, d: u32)
    requires
        0 <= d < coll.records@.len(),
    ensures
        crate::hash_to_color::overridden(
            Map::<u64, Set<u32>>::empty(),
            coll.records@[d as int].sketch.mins@.to_set(),
            Set::empty().insert(d),
        ) == sub_mapping(coll, Set::empty().insert(d)),
{
    let lhs = crate::hash_to_color::overridden(
        Map::<u64, Set<u32>>::empty(),
        coll.records@[d as int].sketch.mins@.to_set(),
        Set::empty().insert(d),
    );
    let rhs = sub_mapping(coll, Set::empty().insert(d));
    assert forall|h: u64| lhs.dom().contains(h) implies rhs.dom().contains(h) by {
        assert(coll.records@[d as int].sketch.mins@.contains(h));
        assert(Set::empty().insert(d).contains(d));
    }
    assert forall|h: u64| rhs.dom().contains(h) implies lhs.dom().contains(h) by {
        let w = choose|w: u32|
            #[trigger] Set::empty().insert(d).contains(w) && 0 <= w < coll.records@.len()
                && coll.records@[w as int].sketch.mins@.contains(h);
        assert(w == d);
        assert(coll.records@[d as int].sketch.mins@.to_set().contains(h));
    }
    assert forall|h: u64| lhs.dom().contains(h) implies lhs[h] =~= rhs[h] by {}
    assert(lhs =~~= rhs);
}

/// Merge equivalence: building the mapping from two groups of datasets
/// separately and taking the pointwise union — which is what the reduction
/// of two (mapping, color table) pairs produces — equals building the
/// mapping from the combined group directly. This holds for any split of a
/// collection, so batches may be reduced pairwise in any grouping.
pub proof fn lemma_merge_equivalence(coll: CollectionSet, ds1: Set<u32>, ds2: Set<u32>)
    ensures
        union_resolved(sub_mapping(coll, ds1), sub_mapping(coll, ds2)) == sub_mapping(
            coll,
            ds1.union(ds2),
        ),
{
    let lhs = union_resolved(sub_mapping(coll, ds1), sub_mapping(coll, ds2));
    let rhs = sub_mapping(coll, ds1.union(ds2));
    assert forall|h: u64| lhs.dom().contains(h) implies rhs.dom().contains(h) by {
        if sub_mapping(coll, ds1).dom().contains(h) {
            let d = choose|d: u32|
                #[trigger] ds1.contains(d) && 0 <= d < coll.records@.len()
                    && coll.records@[d as int].sketch.mins@.contains(h);
            assert(ds1.union(ds2).contains(d));
        } else {
            let d = choose|d: u32|
                #[trigger] ds2.contains(d) && 0 <= d < coll.records@.len()
                    && coll.records@[d as int].sketch.mins@.contains(h);
            assert(ds1.union(ds2).contains(d));
        }
    }
    assert forall|h: u64| rhs.dom().contains(h) implies lhs.dom().contains(h) by {
        let d = choose|d: u32|
            #[trigger] ds1.union(ds2).contains(d) && 0 <= d < coll.records@.len()
                && coll.records@[d as int].sketch.mins@.contains(h);
        if ds1.contains(d) {
            assert(sub_mapping(coll, ds1).dom().contains(h));
        } else {
            assert(ds2.contains(d));
            assert(sub_mapping(coll, ds2).dom().contains(h));
        }
    }
    assert forall|h: u64| lhs.dom().contains(h) implies lhs[h] =~= rhs[h] by {
        assert forall|x: u32| lhs[h].contains(x) implies rhs[h].contains(x) by {
            assert(ds1.union(ds2).contains(x));
        }
        assert forall|x: u32| rhs[h].contains(x) implies lhs[h].contains(x) by {
            if ds1.contains(x) {
                assert(sub_mapping(coll, ds1).dom().contains(h));
                assert(sub_mapping(coll, ds1)[h].contains(x));
            } else {
                assert(ds2.contains(x));
                assert(sub_mapping(coll, ds2).dom().contains(h));
                assert(sub_mapping(coll, ds2)[h].contains(x));
            }
        }
    }
    assert(lhs =~~= rhs);
}

/// The whole collection's group mapping is its membership mapping: the
/// direct build and any reduction tree over a full split agree with the
/// index's own content.
pub proof fn lemma_full_group_is_membership(coll: CollectionSet, all: Set<u32>, h: u64)
    requires
        forall|d: u32| 0 <= d < coll.records@.len() ==> #[trigger] all.contains(d),
        sub_mapping(coll, all).dom().contains(h),
    ensures
        sub_mapping(coll, all)[h] == crate::disk_revindex::membership(coll, h),
{
    assert(sub_mapping(coll, all)[h] =~= crate::disk_revindex::membership(coll, h));
}

/// Relocation: query results are a function of the index's mapping and
/// collection alone. Storage internalization and moves leave the mapping
/// untouched, so every overlap count — and with it every ranked match and
/// gather round — is identical before and after.
pub proof fn lemma_relocation_preserves_queries(
    m1: Map<u64, Set<u32>>,
    m2: Map<u64, Set<u32>>,
    q: Seq<u64>,
    i: u32,
)
    requires
        m1 == m2,
    ensures
        overlap_count(m1, q, i) == overlap_count(m2, q, i),
{
}

} // verus!
