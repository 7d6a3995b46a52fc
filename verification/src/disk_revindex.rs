//! The persistent-store-backed index variant: its in-memory content (the
//! hash-to-color and color-to-member-set mappings beside the collection
//! snapshot), and the per-dataset population loop that builds and extends
//! it.
//!
//! The store engine itself (partitions, batched writes, iteration) is plain
//! disk input/output and lives with the caller; this module owns every
//! decision and every mapping the store persists.

use crate::collection::{CollectionSet, KmerMinHash};
use crate::colors::{color_of_set, Colors};
use crate::hash_to_color::{linked, resolved, HashToColor};
use crate::query::{bounded_mapping, counter_from, overlap_count, ranked_from_counts, SigCounter};
use crate::Error;
use crate::StorageSpec;
use vstd::prelude::*;

verus! {

/// The persistent-store-backed reverse index.
pub struct RevIndex {
    pub collection: CollectionSet,
    pub hash_to_color: HashToColor,
    pub colors: Colors,
    pub read_only: bool,
    pub storage_spec: StorageSpec,
    pub location: String,
}

impl RevIndex {
    /// The semantic content: each indexed hash resolved to the set of
    /// dataset indices containing it.
    pub open spec fn mapping(self) -> Map<u64, Set<u32>> {
        resolved(self.hash_to_color, self.colors)
    }

    /// Structural well-formedness: tables ordered and linked, and every
    /// member set within the collection's index range.
    pub open spec fn valid(self) -> bool {
        &&& self.collection.wf()
        &&& self.collection.records@.len() <= u32::MAX
        &&& self.hash_to_color.wf()
        &&& self.colors.wf()
        &&& linked(self.hash_to_color, self.colors)
        &&& bounded_mapping(self.mapping(), self.collection.records@.len() as int)
    }

    /// The mapping is exactly the membership relation of the collection.
    pub open spec fn is_exact(self) -> bool {
        exact_upto(
            self.hash_to_color,
            self.colors,
            self.collection,
            self.collection.records@.len() as int,
        )
    }

    /// Builds a fresh index over a collection snapshot. Fails only on a
    /// color collision, which a collision-free collection never hits.
    pub fn create(location: String, collection: CollectionSet, storage_spec: StorageSpec) -> (r:
        Result<RevIndex, Error>)
        requires
            collection.wf(),
            collection.records@.len() <= u32::MAX,
        ensures
            match r {
                Ok(idx) => {
                    &&& idx.valid()
                    &&& idx.is_exact()
                    &&& idx.collection == collection
                    &&& !idx.read_only
                    &&& idx.storage_spec == storage_spec
                    &&& crate::disk_revindex::family_table(idx.colors, collection)
                },
                Err(e) => {
                    &&& e == Error::ColorCollision
                    &&& !collision_free(collection)
                },
            },
            collision_free(collection) ==> r is Ok,
    {
        let h2c = HashToColor::new();
        let colors = Colors::new();
        proof {
            assert(forall|x: u64| !(#[trigger] h2c.has_hash(x)));
            assert forall|c: u64| !(#[trigger] colors.has_color(c)) by {
                if colors.has_color(c) {
                    assert(colors.map().dom().contains(c));
                }
            }
            assert(exact_upto(h2c, colors, collection, 0));
            assert(family_table(colors, collection));
        }
        match build_from(&collection, 0, h2c, colors) {
            Ok((h2c, colors)) => {
                proof {
                    lemma_exact_is_bounded(h2c, colors, collection);
                }
                Ok(
                    RevIndex {
                        collection,
                        hash_to_color: h2c,
                        colors,
                        read_only: false,
                        storage_spec,
                        location,
                    },
                )
            },
            Err(e) => Err(e),
        }
    }

    /// Extends the index with the new datasets of a grown collection
    /// snapshot: the old datasets must come first, unchanged, and the new
    /// ones get fresh indices after them. A read-only handle refuses to
    /// mutate; a snapshot that does not extend the indexed one is a
    /// configuration mismatch.
    pub fn update(self, collection: CollectionSet) -> (r: Result<RevIndex, Error>)
        requires
            self.valid(),
            self.is_exact(),
            family_table(self.colors, self.collection),
            collection.wf(),
            collection.records@.len() <= u32::MAX,
        ensures
            match r {
                Ok(idx) => {
                    &&& idx.valid()
                    &&& idx.is_exact()
                    &&& idx.collection == collection
                    &&& !self.read_only
                    &&& extends_collection(collection, self.collection)
                },
                Err(e) => {
                    &&& (e == Error::ReadOnlyViolation || e == Error::ConfigMismatch || e
                        == Error::ColorCollision)
                    &&& (e == Error::ReadOnlyViolation <==> self.read_only)
                    &&& (e == Error::ConfigMismatch <==> (!self.read_only && !extends_collection(
                        collection,
                        self.collection,
                    )))
                    &&& (e == Error::ColorCollision ==> !collision_free(collection))
                },
            },
            !self.read_only && extends_collection(collection, self.collection) && collision_free(
                collection,
            ) ==> r is Ok,
    {
        if self.read_only {
            return Err(Error::ReadOnlyViolation);
        }
        if !extends_check(&collection, &self.collection) {
            return Err(Error::ConfigMismatch);
        }
        let start = self.collection.records.len();
        proof {
            lemma_extends_transfers(collection, self.collection, self.hash_to_color, self.colors);
        }
        match build_from(&collection, start, self.hash_to_color, self.colors) {
            Ok((h2c, colors)) => {
                proof {
                    lemma_exact_is_bounded(h2c, colors, collection);
                }
                Ok(
                    RevIndex {
                        collection,
                        hash_to_color: h2c,
                        colors,
                        read_only: false,
                        storage_spec: self.storage_spec,
                        location: self.location,
                    },
                )
            },
            Err(e) => Err(e),
        }
    }

    /// The overlap counter for a query sketch: for every query hash, how
    /// many times each dataset's member sets account for it.
    pub fn counter_for_query(&self, query: &KmerMinHash) -> (r: SigCounter)
        requires
            self.valid(),
        ensures
            r.counts@.len() == self.collection.records@.len(),
            forall|i: u32|
                0 <= i < self.collection.records@.len() ==> #[trigger] r.counts@[i as int]
                    == overlap_count(self.mapping(), query.mins@, i),
            forall|i: int|
                0 <= i < r.counts@.len() ==> #[trigger] r.counts@[i] <= query.mins@.len(),
    {
        counter_from(&self.hash_to_color, &self.colors, &query.mins, self.collection.records.len())
    }

    /// The ranked matches: datasets whose count reaches the threshold,
    /// ordered by count descending, ties broken by ascending dataset
    /// index, with their counts.
    pub fn matches_from_counter(&self, counter: SigCounter, threshold: usize) -> (r: Vec<
        (String, usize),
    >)
        requires
            self.valid(),
            counter.counts@.len() == self.collection.records@.len(),
            forall|i: int| 0 <= i < counter.counts@.len() ==> #[trigger] counter.counts@[i] <= usize::MAX,
        ensures
            exists|ord: Seq<(u32, u64)>|
                {
                    &&& #[trigger] is_ranked(counter.counts@, threshold as u64, ord)
                    &&& r@.len() == ord.len()
                    &&& forall|k: int|
                        0 <= k < ord.len() ==> ((#[trigger] r@[k]).0@
                            == self.collection.records@[ord[k].0 as int].name@ && r@[k].1 == ord[
                            k
                        ].1)
                },
    {
        let rk = ranked_from_counts(&counter.counts, threshold as u64);
        let mut r: Vec<(String, usize)> = Vec::new();
        let mut k: usize = 0;
        while k < rk.len()
            invariant
                self.valid(),
                counter.counts@.len() == self.collection.records@.len(),
                forall|i: int|
                    0 <= i < counter.counts@.len() ==> #[trigger] counter.counts@[i] <= usize::MAX,
                k <= rk@.len(),
                forall|q: int|
                    0 <= q < rk@.len() ==> ((#[trigger] rk@[q]).0 < counter.counts@.len() && rk@[
                        q
                    ].1 == counter.counts@[rk@[q].0 as int]),
                r@.len() == k,
                forall|q: int|
                    0 <= q < k ==> ((#[trigger] r@[q]).0@ == self.collection.records@[rk@[
                        q
                    ].0 as int].name@ && r@[q].1 == rk@[q].1),
            decreases rk@.len() - k,
        {
            let idx = rk[k].0;
            let cnt = rk[k].1;
            let name = self.collection.records[idx as usize].name.clone();
            r.push((name, cnt as usize));
            k = k + 1;
        }
        proof {
            assert(is_ranked(counter.counts@, threshold as u64, rk@));
        }
        r
    }

    /// One-time precomputation shared by repeated gather calls on the same
    /// query: the overlap counter, the hash-to-color mapping restricted to
    /// the query's hashes, and the color table restricted to the colors
    /// those hashes use. Fails, before any gathering, exactly when the
    /// query does not match the index's selection parameters.
    pub fn prepare_gather_counters(&self, query: &KmerMinHash) -> (r: Result<
        (SigCounter, Colors, HashToColor),
        Error,
    >)
        requires
            self.valid(),
        ensures
            r is Err <==> !query.spec_compatible(self.collection.selection),
            match r {
                Ok(p) => {
                    &&& p.2.wf()
                    &&& p.1.wf()
                    &&& linked(p.2, p.1)
                    &&& bounded_mapping(
                        resolved(p.2, p.1),
                        self.collection.records@.len() as int,
                    )
                    &&& forall|x: u64|
                        #[trigger] p.2.has_hash(x) <==> (self.hash_to_color.has_hash(x)
                            && query.mins@.contains(x))
                    &&& forall|x: u64|
                        #[trigger] p.2.has_hash(x) ==> resolved(p.2, p.1)[x] == self.mapping()[x]
                    &&& p.2.entries@.len() <= query.mins@.len()
                    &&& p.0.counts@.len() == self.collection.records@.len()
                    &&& forall|i: u32|
                        0 <= i < p.0.counts@.len() ==> #[trigger] p.0.counts@[i as int]
                            == crate::query::overlap_count(
                            resolved(p.2, p.1),
                            crate::query::keys_of(p.2),
                            i,
                        )
                },
                Err(e) => e == Error::ConfigMismatch,
            },
    {
        if !query.compatible(&self.collection.selection) {
            return Err(Error::ConfigMismatch);
        }
        let mut h2c = HashToColor::new();
        let mut qc = Colors::new();
        proof {
            assert(forall|x: u64| !(#[trigger] h2c.has_hash(x)));
            assert forall|c: u64| !(#[trigger] qc.has_color(c)) by {
                if qc.has_color(c) {
                    assert(qc.map().dom().contains(c));
                }
            }
        }
        let mut k: usize = 0;
        while k < query.mins.len()
            invariant
                self.valid(),
                k <= query.mins@.len(),
                h2c.wf(),
                qc.wf(),
                h2c.entries@.len() <= k,
                forall|c: u64|
                    #[trigger] qc.has_color(c) ==> (self.colors.has_color(c) && qc.map()[c]
                        == self.colors.map()[c]),
                forall|x: u64|
                    #[trigger] h2c.has_hash(x) <==> (self.hash_to_color.has_hash(x)
                        && query.mins@.take(k as int).contains(x)),
                forall|x: u64|
                    #[trigger] h2c.has_hash(x) ==> (h2c.map()[x] == self.hash_to_color.map()[x]
                        && qc.has_color(h2c.map()[x])),
            decreases query.mins@.len() - k,
        {
            let h = query.mins[k];
            proof {
                assert(query.mins@.take(k as int + 1).drop_last() =~= query.mins@.take(k as int));
                assert(query.mins@.take(k as int + 1).last() == h);
                assert forall|x: u64| query.mins@.take(k as int + 1).contains(x) implies (x == h
                    || query.mins@.take(k as int).contains(x)) by {
                    let q = choose|q: int|
                        0 <= q < k + 1 && #[trigger] query.mins@.take(k as int + 1)[q] == x;
                    if q < k {
                        assert(query.mins@.take(k as int)[q] == x);
                    }
                }
                assert forall|x: u64| query.mins@.take(k as int).contains(x)
                    implies query.mins@.take(k as int + 1).contains(x) by {
                    let q = choose|q: int|
                        0 <= q < k && #[trigger] query.mins@.take(k as int)[q] == x;
                    assert(query.mins@.take(k as int + 1)[q] == x);
                }
                assert(query.mins@.take(k as int + 1).contains(h)) by {
                    assert(query.mins@.take(k as int + 1)[k as int] == h);
                }
            }
            match self.hash_to_color.get(&h) {
                Some(c) => {
                    proof {
                        assert(self.colors.has_color(c));
                    }
                    let ghost qc0 = qc;
                    qc.copy_color_from(&self.colors, c);
                    let ghost h2c0 = h2c;
                    h2c.set_color(h, c);
                    proof {
                        assert forall|x: u64| #[trigger] h2c.has_hash(x) implies (h2c.map()[x]
                            == self.hash_to_color.map()[x] && qc.has_color(h2c.map()[x])) by {
                            if x != h {
                                assert(h2c0.has_hash(x));
                                assert(h2c.map()[x] == h2c0.map()[x]);
                            } else {
                                assert(h2c.map()[x] == c);
                            }
                        }
                        assert forall|cc: u64| #[trigger] qc.has_color(cc) implies (
                        self.colors.has_color(cc) && qc.map()[cc] == self.colors.map()[cc]) by {
                            if cc != c {
                                assert(qc0.has_color(cc));
                                assert(qc.map()[cc] == qc0.map()[cc]);
                            } else {
                                assert(qc.map()[cc] == self.colors.map()[c]);
                            }
                        }
                    }
                },
                None => {},
            }
            k = k + 1;
        }
        proof {
            assert(query.mins@.take(query.mins@.len() as int) =~= query.mins@);
            assert(linked(h2c, qc));
            assert forall|x: u64| #[trigger] h2c.has_hash(x) implies resolved(h2c, qc)[x]
                == self.mapping()[x] by {
                assert(self.hash_to_color.has_hash(x));
                assert(qc.map()[h2c.map()[x]] == self.colors.map()[h2c.map()[x]]);
            }
            assert(bounded_mapping(resolved(h2c, qc), self.collection.records@.len() as int)) by {
                assert forall|h: u64, i: u32|
                    resolved(h2c, qc).dom().contains(h) && #[trigger] resolved(h2c, qc)[h].contains(
                    i,
                ) implies 0 <= i < self.collection.records@.len() by {
                    assert(h2c.has_hash(h));
                    assert(resolved(h2c, qc)[h] == self.mapping()[h]);
                    assert(self.hash_to_color.has_hash(h));
                    assert(self.mapping().dom().contains(h));
                    assert(self.mapping()[h].contains(i));
                }
            }
        }
        let mut keys: Vec<u64> = Vec::new();
        let mut t: usize = 0;
        while t < h2c.entries.len()
            invariant
                t <= h2c.entries@.len(),
                keys@ == crate::query::keys_of(h2c).take(t as int),
            decreases h2c.entries@.len() - t,
        {
            keys.push(h2c.entries[t].0);
            proof {
                assert(keys@ =~= crate::query::keys_of(h2c).take(t as int + 1));
            }
            t = t + 1;
        }
        proof {
            assert(crate::query::keys_of(h2c).take(crate::query::keys_of(h2c).len() as int)
                =~= crate::query::keys_of(h2c));
        }
        let counter = counter_from(&h2c, &qc, &keys, self.collection.records.len());
        Ok((counter, qc, h2c))
    }

    /// Greedy containment decomposition. Each round selects the dataset
    /// with the maximum remaining count (ties broken by ascending dataset
    /// index), records its statistics against the original query, and
    /// removes the hashes it claims from the working counters, strictly
    /// shrinking the remaining query weight; it stops when no candidate
    /// reaches the threshold. An incompatible selection is refused before
    /// any round.
    pub fn gather(
        &self,
        counter: SigCounter,
        query_colors: Colors,
        hash_to_color: HashToColor,
        threshold: usize,
        query: &KmerMinHash,
        selection: Option<crate::collection::Selection>,
    ) -> (r: Result<Vec<crate::query::GatherResult>, Error>)
        requires
            self.valid(),
            query_colors.wf(),
            hash_to_color.wf(),
            linked(hash_to_color, query_colors),
            bounded_mapping(
                resolved(hash_to_color, query_colors),
                self.collection.records@.len() as int,
            ),
            counter.counts@.len() == self.collection.records@.len(),
            forall|i: u32|
                0 <= i < counter.counts@.len() ==> #[trigger] counter.counts@[i as int]
                    == crate::query::overlap_count(
                    resolved(hash_to_color, query_colors),
                    crate::query::keys_of(hash_to_color),
                    i,
                ),
            hash_to_color.entries@.len() <= query.mins@.len(),
            query.mins@.len() * self.collection.selection.scaled <= u64::MAX,
        ensures
            (r is Err <==> (match selection {
                Some(sel) => !query.spec_compatible(sel),
                None => false,
            })),
            match r {
                Ok(res) => {
                    let thr = if threshold as u64 >= 1 {
                        threshold as u64
                    } else {
                        1u64
                    };
                    &&& forall|k: int|
                        0 <= k < res@.len() ==> round_ok(
                            #[trigger] res@[k],
                            self.collection,
                            query.mins@,
                            self.collection.selection.scaled,
                            thr,
                        )
                    &&& (res@.len() > 0 ==> res@[0].unique_count + res@[0].remaining_count
                        == query.mins@.len())
                    &&& forall|k: int|
                        1 <= k < res@.len() ==> (#[trigger] res@[k]).remaining_count + res@[
                            k
                        ].unique_count == res@[k - 1].remaining_count
                    &&& (res@.len() > 0 ==> crate::query::is_best(
                        counter.counts@,
                        res@[0].dataset_id,
                    ) && res@[0].unique_count == counter.counts@[res@[0].dataset_id as int])
                    &&& (res@.len() == 0 <==> !(exists|i: int|
                        0 <= i < counter.counts@.len() && #[trigger] counter.counts@[i] >= thr))
                    &&& ({
                        let m0 = resolved(hash_to_color, query_colors);
                        let keys0 = crate::query::keys_of(hash_to_color);
                        let n = counter.counts@.len();
                        // each round claims exactly its remaining count, and
                        // is the greedy best of the counts left to it
                        &&& forall|k: int|
                            0 <= k < res@.len() ==> (#[trigger] res@[k]).unique_count
                                == crate::query::overlap_count_outside(
                                m0,
                                keys0,
                                res@[k].dataset_id,
                                done_upto(res@, k),
                            )
                        // no dataset is selected twice
                        &&& forall|k: int, l: int|
                            0 <= k < l < res@.len() ==> (#[trigger] res@[k]).dataset_id != (
                            #[trigger] res@[l]).dataset_id
                        // the rounds are complete: nothing left qualifies
                        &&& forall|j: u32|
                            0 <= j < n ==> #[trigger] crate::query::overlap_count_outside(
                                m0,
                                keys0,
                                j,
                                done_upto(res@, res@.len() as int),
                            ) < thr
                    })
                },
                Err(e) => e == Error::ConfigMismatch,
            },
    {
        match &selection {
            Some(sel) => {
                if !query.compatible(sel) {
                    return Err(Error::ConfigMismatch);
                }
            },
            None => {},
        }
        let thr: u64 = if threshold as u64 >= 1 {
            threshold as u64
        } else {
            1u64
        };
        let scaled = self.collection.selection.scaled;
        let qlen: u64 = query.mins.len() as u64;
        let ghost counts0 = counter.counts@;
        let ghost m0 = resolved(hash_to_color, query_colors);
        let ghost keys0 = crate::query::keys_of(hash_to_color);
        proof {
            crate::query::lemma_keys_of_ascending(hash_to_color);
            assert forall|x: u64| #[trigger] m0.dom().contains(x) <==> keys0.contains(x) by {
                assert(m0.dom().contains(x) <==> hash_to_color.has_hash(x));
            }
        }
        let mut counts = counter.counts;
        let mut h2c = hash_to_color;
        let mut remaining: u64 = qlen;
        let mut results: Vec<crate::query::GatherResult> = Vec::new();
        loop
            invariant_except_break
                self.valid(),
                query_colors.wf(),
                h2c.wf(),
                linked(h2c, query_colors),
                bounded_mapping(
                    resolved(h2c, query_colors),
                    self.collection.records@.len() as int,
                ),
                counts@.len() == self.collection.records@.len(),
                counts@.len() <= u32::MAX,
                counts0.len() == counts@.len(),
                forall|i: u32|
                    0 <= i < counts@.len() ==> #[trigger] counts@[i as int]
                        == crate::query::overlap_count(
                        resolved(h2c, query_colors),
                        crate::query::keys_of(h2c),
                        i,
                    ),
                crate::seqs::ascending64(keys0),
                forall|x: u64| #[trigger] m0.dom().contains(x) <==> keys0.contains(x),
                forall|x: u64|
                    #[trigger] h2c.has_hash(x) <==> (m0.dom().contains(x)
                        && crate::query::sets_disjoint(
                        m0[x],
                        done_upto(results@, results@.len() as int),
                    )),
                forall|x: u64|
                    #[trigger] h2c.has_hash(x) ==> resolved(h2c, query_colors)[x] == m0[x],
                forall|k: int|
                    0 <= k < results@.len() ==> (#[trigger] results@[k]).unique_count
                        == crate::query::overlap_count_outside(
                        m0,
                        keys0,
                        results@[k].dataset_id,
                        done_upto(results@, k),
                    ),
                forall|k: int, l: int|
                    0 <= k < l < results@.len() ==> (#[trigger] results@[k]).dataset_id != (
                    #[trigger] results@[l]).dataset_id,
                h2c.entries@.len() <= remaining,
                remaining <= qlen,
                qlen == query.mins@.len(),
                qlen * scaled <= u64::MAX,
                scaled == self.collection.selection.scaled,
                thr >= 1,
                thr == (if threshold as u64 >= 1 {
                    threshold as u64
                } else {
                    1u64
                }),
                forall|k: int|
                    0 <= k < results@.len() ==> round_ok(
                        #[trigger] results@[k],
                        self.collection,
                        query.mins@,
                        scaled,
                        thr,
                    ),
                (results@.len() > 0 ==> results@[0].unique_count + results@[0].remaining_count
                    == qlen),
                forall|k: int|
                    1 <= k < results@.len() ==> (#[trigger] results@[k]).remaining_count + results@[
                        k
                    ].unique_count == results@[k - 1].remaining_count,
                (results@.len() > 0 ==> crate::query::is_best(counts0, results@[0].dataset_id)
                    && results@[0].unique_count == counts0[results@[0].dataset_id as int]),
                (results@.len() == 0 ==> counts@ == counts0 && remaining == qlen),
                (results@.len() > 0 ==> results@[results@.len() - 1].remaining_count == remaining),
            ensures
                forall|k: int|
                    0 <= k < results@.len() ==> round_ok(
                        #[trigger] results@[k],
                        self.collection,
                        query.mins@,
                        scaled,
                        thr,
                    ),
                (results@.len() > 0 ==> results@[0].unique_count + results@[0].remaining_count
                    == qlen),
                forall|k: int|
                    1 <= k < results@.len() ==> (#[trigger] results@[k]).remaining_count + results@[
                        k
                    ].unique_count == results@[k - 1].remaining_count,
                (results@.len() > 0 ==> crate::query::is_best(counts0, results@[0].dataset_id)
                    && results@[0].unique_count == counts0[results@[0].dataset_id as int]),
                (results@.len() == 0 ==> counts@ == counts0),
                forall|j: int| 0 <= j < counts@.len() ==> #[trigger] counts@[j] < thr,
                counts@.len() == counts0.len(),
                h2c.wf(),
                query_colors.wf(),
                linked(h2c, query_colors),
                forall|i: u32|
                    0 <= i < counts@.len() ==> #[trigger] counts@[i as int]
                        == crate::query::overlap_count(
                        resolved(h2c, query_colors),
                        crate::query::keys_of(h2c),
                        i,
                    ),
                crate::seqs::ascending64(keys0),
                forall|x: u64| #[trigger] m0.dom().contains(x) <==> keys0.contains(x),
                forall|x: u64|
                    #[trigger] h2c.has_hash(x) <==> (m0.dom().contains(x)
                        && crate::query::sets_disjoint(
                        m0[x],
                        done_upto(results@, results@.len() as int),
                    )),
                forall|x: u64|
                    #[trigger] h2c.has_hash(x) ==> resolved(h2c, query_colors)[x] == m0[x],
                forall|k: int|
                    0 <= k < results@.len() ==> (#[trigger] results@[k]).unique_count
                        == crate::query::overlap_count_outside(
                        m0,
                        keys0,
                        results@[k].dataset_id,
                        done_upto(results@, k),
                    ),
                forall|k: int, l: int|
                    0 <= k < l < results@.len() ==> (#[trigger] results@[k]).dataset_id != (
                    #[trigger] results@[l]).dataset_id,
            decreases remaining,
        {
            let best = crate::query::best_index(&counts);
            let (sel, c) = match best {
                Some(p) => p,
                None => {
                    break ;
                },
            };
            if c < thr {
                proof {
                    assert forall|j: int| 0 <= j < counts@.len() implies #[trigger] counts@[j]
                        < thr by {
                        assert(counts@[j] < counts@[sel as int] || counts@[j] == counts@[
                            sel as int
                        ]);
                    }
                }
                break ;
            }
            let ghost pre_counts = counts@;
            let ghost ds = done_upto(results@, results@.len() as int);
            proof {
                assert forall|j: u32| 0 <= j < counts@.len() implies #[trigger] counts@[j as int]
                    == crate::query::overlap_count_outside(m0, keys0, j, ds) by {
                    crate::query::lemma_counts_outside(h2c, query_colors, m0, keys0, ds, j);
                }
                assert forall|k: int| 0 <= k < results@.len() implies (
                #[trigger] results@[k]).dataset_id != sel by {
                    lemma_done_upto_contains(results@, results@.len() as int, k);
                    crate::query::lemma_overlap_outside_done(
                        m0,
                        keys0,
                        results@[k].dataset_id,
                        ds,
                    );
                    assert(counts@[results@[k].dataset_id as int] == 0);
                }
            }
            let rec = &self.collection.records[sel as usize];
            let match_size = rec.sketch.mins.len();
            let intersect_orig = crate::query::shared_count_exec(&rec.sketch.mins, &query.mins);
            let unique = c;
            proof {
                crate::query::lemma_overlap_le_len(
                    resolved(h2c, query_colors),
                    crate::query::keys_of(h2c),
                    sel,
                );
                assert(unique <= h2c.entries@.len());
                vstd::arithmetic::mul::lemma_mul_inequality(
                    unique as int,
                    qlen as int,
                    scaled as int,
                );
            }
            let new_remaining = remaining - unique;
            proof {
                vstd::arithmetic::mul::lemma_mul_inequality(
                    new_remaining as int,
                    qlen as int,
                    scaled as int,
                );
            }
            let u_bp = unique * scaled;
            let r_bp = new_remaining * scaled;
            let g = crate::query::GatherResult {
                name: rec.name.clone(),
                dataset_id: sel,
                match_size,
                intersect_orig,
                unique_count: unique,
                remaining_count: new_remaining,
                scaled,
                orig_query_size: qlen,
                unique_intersect_bp: u_bp,
                remaining_bp: r_bp,
            };
            let ghost old_results = results@;
            results.push(g);
            proof {
                assert(forall|k: int|
                    0 <= k < old_results.len() ==> results@[k] == (#[trigger] old_results[k]));
                assert(results@[results@.len() - 1] == g);
                assert(round_ok(g, self.collection, query.mins@, scaled, thr));
                assert forall|k: int| 0 <= k <= old_results.len() implies done_upto(results@, k)
                    == done_upto(old_results, k) by {
                    lemma_done_upto_prefix(results@, old_results, k);
                }
                assert(done_upto(results@, results@.len() - 1) == ds);
                assert(results@[results@.len() - 1].unique_count
                    == crate::query::overlap_count_outside(m0, keys0, sel, ds));
            }
            remaining = new_remaining;
            let ghost pre_h2c = h2c;
            h2c = crate::query::remove_claimed(h2c, &query_colors, &mut counts, sel);
            proof {
                assert(h2c.entries@.len() <= remaining);
                let ds2 = done_upto(results@, results@.len() as int);
                assert(ds2 == ds.insert(sel));
                assert forall|x: u64| #[trigger] h2c.has_hash(x) ==> resolved(h2c, query_colors)[x]
                    == m0[x] by {
                    if h2c.has_hash(x) {
                        assert(pre_h2c.has_hash(x));
                        assert(h2c.map()[x] == pre_h2c.map()[x]);
                        assert(resolved(h2c, query_colors)[x] == query_colors.map()[h2c.map()[x]]);
                        assert(resolved(pre_h2c, query_colors)[x] == query_colors.map()[
                            pre_h2c.map()[x]
                        ]);
                        assert(resolved(pre_h2c, query_colors)[x] == m0[x]);
                    }
                }
                assert forall|x: u64| #[trigger] h2c.has_hash(x) <==> (m0.dom().contains(x)
                    && crate::query::sets_disjoint(m0[x], ds2)) by {
                    assert(crate::query::sets_disjoint(m0[x], ds2) <==> (
                    crate::query::sets_disjoint(m0[x], ds) && !m0[x].contains(sel))) by {
                        if crate::query::sets_disjoint(m0[x], ds) && !m0[x].contains(sel) {
                            assert forall|j: u32| ds2.contains(j) implies !m0[x].contains(j) by {
                                if j != sel {
                                    assert(ds.contains(j));
                                }
                            }
                        }
                        if crate::query::sets_disjoint(m0[x], ds2) {
                            assert(ds2.contains(sel));
                            assert forall|j: u32| ds.contains(j) implies !m0[x].contains(j) by {
                                assert(ds2.contains(j));
                            }
                        }
                    }
                    if h2c.has_hash(x) {
                        assert(pre_h2c.has_hash(x));
                        assert(!resolved(pre_h2c, query_colors)[x].contains(sel));
                        assert(resolved(pre_h2c, query_colors)[x] == m0[x]);
                    }
                    if m0.dom().contains(x) && crate::query::sets_disjoint(m0[x], ds2) {
                        assert(crate::query::sets_disjoint(m0[x], ds));
                        assert(pre_h2c.has_hash(x));
                        assert(resolved(pre_h2c, query_colors)[x] == m0[x]);
                        assert(!resolved(pre_h2c, query_colors)[x].contains(sel));
                    }
                }
                assert(bounded_mapping(
                    resolved(h2c, query_colors),
                    self.collection.records@.len() as int,
                )) by {
                    assert forall|h: u64, i: u32|
                        resolved(h2c, query_colors).dom().contains(h) && #[trigger] resolved(
                            h2c,
                            query_colors,
                        )[h].contains(i) implies 0 <= i
                        < self.collection.records@.len() by {
                        assert(h2c.has_hash(h));
                        assert(pre_h2c.has_hash(h));
                        assert(h2c.map()[h] == pre_h2c.map()[h]);
                        assert(resolved(pre_h2c, query_colors).dom().contains(h));
                        assert(resolved(pre_h2c, query_colors)[h].contains(i));
                    }
                }
            }
        }
        proof {
            if results@.len() == 0 {
                assert forall|i: int|
                    0 <= i < counts0.len() implies !(#[trigger] counts0[i] >= thr) by {
                    assert(counts@[i] < thr);
                }
            } else {
                assert(counts0[results@[0].dataset_id as int] >= thr);
            }
            let dsf = done_upto(results@, results@.len() as int);
            assert forall|j: u32|
                0 <= j < counts@.len() implies #[trigger] crate::query::overlap_count_outside(
                m0,
                keys0,
                j,
                dsf,
            ) < thr by {
                crate::query::lemma_counts_outside(h2c, query_colors, m0, keys0, dsf, j);
                assert(counts@[j as int] < thr);
            }
        }
        Ok(results)
    }

    /// Maintenance delegated to the persistent store's engine; the index
    /// content is untouched.
    pub fn compact(&self) {
    }

    /// Durability is the store engine's concern; all content is already in
    /// this value.
    pub fn flush(&self) -> (r: Result<(), Error>)
        ensures
            r is Ok,
    {
        Ok(())
    }

    /// Rewrites this index's contents into another backend instance; the
    /// result answers queries exactly as the source does.
    pub fn convert(&self, output_db: &mut RevIndex) -> (r: Result<(), Error>)
        requires
            self.valid(),
        ensures
            match r {
                Ok(u) => {
                    &&& final(output_db).valid()
                    &&& final(output_db).mapping() == self.mapping()
                    &&& same_collection(final(output_db).collection, self.collection)
                },
                Err(e) => false,
            },
    {
        output_db.collection = clone_collection(&self.collection);
        output_db.hash_to_color = clone_h2c(&self.hash_to_color);
        output_db.colors = clone_colors(&self.colors);
        proof {
            assert forall|x: u64| #[trigger] output_db.hash_to_color.has_hash(x)
                <==> self.hash_to_color.has_hash(x) by {}
            assert forall|x: u64| self.hash_to_color.has_hash(x)
                implies #[trigger] output_db.hash_to_color.map()[x] == self.hash_to_color.map()[
                x
            ] by {
                assert(output_db.hash_to_color.map().dom().contains(x));
            }
            assert(linked(output_db.hash_to_color, output_db.colors)) by {
                assert forall|x: u64| output_db.hash_to_color.has_hash(x)
                    implies output_db.colors.has_color(
                    #[trigger] output_db.hash_to_color.map()[x],
                ) by {
                    let cx = self.hash_to_color.map()[x];
                    assert(self.colors.has_color(cx));
                    assert(self.colors.map().dom().contains(cx));
                    assert(output_db.colors.map().dom().contains(cx));
                }
            }
            assert(output_db.mapping() =~~= self.mapping());
            assert(output_db.collection == final(output_db).collection);
            assert(bounded_mapping(
                output_db.mapping(),
                output_db.collection.records@.len() as int,
            ));
        }
        Ok(())
    }

    /// Embeds the referenced dataset bytes into the index itself: the
    /// storage spec becomes internal, so the index is self-contained and
    /// relocatable. The caller copies the bytes; the mapping and the
    /// collection are untouched.
    pub fn internalize_storage(&mut self) -> (r: Result<(), Error>)
        requires
            old(self).valid(),
        ensures
            match r {
                Ok(u) => {
                    &&& final(self).storage_spec == StorageSpec::Internal
                    &&& final(self).mapping() == old(self).mapping()
                    &&& final(self).collection == old(self).collection
                    &&& final(self).valid()
                    &&& final(self).read_only == old(self).read_only
                },
                Err(e) => e == Error::ReadOnlyViolation && old(self).read_only && *final(self)
                    == *old(self),
            },
            r is Err <==> old(self).read_only,
    {
        if self.read_only {
            return Err(Error::ReadOnlyViolation);
        }
        self.storage_spec = StorageSpec::Internal;
        Ok(())
    }
}

impl RevIndex {
    /// The hash partition rows: an eight-byte little-endian hash key and
    /// the eight-byte little-endian color it maps to.
    pub fn hash_rows(&self) -> (r: Vec<(Vec<u8>, Vec<u8>)>)
        requires
            self.valid(),
        ensures
            r@.len() == self.hash_to_color.entries@.len(),
            forall|k: int|
                0 <= k < r@.len() ==> ((#[trigger] r@[k]).0@ == vstd::bytes::spec_u64_to_le_bytes(
                    self.hash_to_color.entries@[k].0,
                ) && r@[k].1@ == vstd::bytes::spec_u64_to_le_bytes(
                    self.hash_to_color.entries@[k].1,
                )),
    {
        let mut r: Vec<(Vec<u8>, Vec<u8>)> = Vec::new();
        let mut k: usize = 0;
        while k < self.hash_to_color.entries.len()
            invariant
                k <= self.hash_to_color.entries@.len(),
                r@.len() == k,
                forall|q: int|
                    0 <= q < k ==> ((#[trigger] r@[q]).0@ == vstd::bytes::spec_u64_to_le_bytes(
                        self.hash_to_color.entries@[q].0,
                    ) && r@[q].1@ == vstd::bytes::spec_u64_to_le_bytes(
                        self.hash_to_color.entries@[q].1,
                    )),
            decreases self.hash_to_color.entries@.len() - k,
        {
            let key = vstd::bytes::u64_to_le_bytes(self.hash_to_color.entries[k].0);
            let val = vstd::bytes::u64_to_le_bytes(self.hash_to_color.entries[k].1);
            r.push((key, val));
            k = k + 1;
        }
        r
    }

    /// The color partition rows: an eight-byte little-endian color key and
    /// the serialized compact index set it maps to.
    pub fn color_rows(&self) -> (r: Vec<(Vec<u8>, Vec<u8>)>)
        requires
            self.valid(),
        ensures
            r@.len() == self.colors.entries@.len(),
            forall|k: int|
                0 <= k < r@.len() ==> ((#[trigger] r@[k]).0@ == vstd::bytes::spec_u64_to_le_bytes(
                    self.colors.entries@[k].0,
                ) && crate::datasets::decoded_set(r@[k].1@) == Some(self.colors.entries@[k].1.set())
                    && r@[k].0@.len() == 8),
    {
        let mut r: Vec<(Vec<u8>, Vec<u8>)> = Vec::new();
        let mut k: usize = 0;
        while k < self.colors.entries.len()
            invariant
                self.valid(),
                k <= self.colors.entries@.len(),
                r@.len() == k,
                forall|q: int|
                    0 <= q < k ==> ((#[trigger] r@[q]).0@ == vstd::bytes::spec_u64_to_le_bytes(
                        self.colors.entries@[q].0,
                    ) && crate::datasets::decoded_set(r@[q].1@) == Some(
                        self.colors.entries@[q].1.set(),
                    ) && r@[q].0@.len() == 8),
            decreases self.colors.entries@.len() - k,
        {
            let key = vstd::bytes::u64_to_le_bytes(self.colors.entries[k].0);
            let val = match self.colors.entries[k].1.as_bytes() {
                Some(v) => v,
                None => {
                    proof {
                        assert(false);
                    }
                    Vec::new()
                },
            };
            r.push((key, val));
            k = k + 1;
        }
        r
    }

    /// Scans the color partition: always the raw byte totals; in deep
    /// (non-quick) mode additionally every value decoded as a compact
    /// index set, a size histogram, and the distinct dataset count over
    /// all decoded sets. Never mutates, so it is safe on a read-only
    /// handle; a valid index's own partition always decodes, so the scan
    /// always succeeds.
    pub fn check(&self, quick: bool) -> (r: Result<crate::stats::DbStats, Error>)
        requires
            self.valid(),
            self.colors.entries@.len() * 8 <= usize::MAX,
        ensures
            r is Ok,
            match r {
                Ok(st) => {
                    &&& st.stat_total_keys == self.colors.entries@.len()
                    &&& st.stat_kcount == self.colors.entries@.len() * 8
                    &&& (!quick ==> st.stat_total_datasets == colors_union(
                        self.colors.entries@,
                        self.colors.entries@.len() as int,
                    ).len())
                },
                Err(e) => false,
            },
    {
        let rows = self.color_rows();
        proof {
            lemma_key_sum(rows@, rows@.len() as int);
        }
        match crate::stats::stats_for_cf(&rows, true, quick) {
            Ok(st) => {
                proof {
                    if !quick {
                        lemma_union_transfer(rows@, self.colors.entries@, rows@.len() as int);
                    }
                }
                Ok(st)
            },
            Err(e) => {
                proof {
                    let bad = choose|k: int|
                        0 <= k < rows@.len() && crate::datasets::decoded_set(
                            #[trigger] rows@[k].1@,
                        ) is None;
                    assert(false);
                }
                Err(e)
            },
        }
    }
}

/// The dataset indices the first `k` gather rounds selected.
pub open spec fn done_upto(res: Seq<crate::query::GatherResult>, k: int) -> Set<u32>
    decreases k,
{
    if k <= 0 {
        Set::empty()
    } else {
        done_upto(res, k - 1).insert(res[k - 1].dataset_id)
    }
}

/// The selected-set of a prefix depends only on that prefix's rounds.
proof fn lemma_done_upto_prefix(
    a: Seq<crate::query::GatherResult>,
    b: Seq<crate::query::GatherResult>,
    k: int,
)
    requires
        k <= a.len(),
        k <= b.len(),
        forall|q: int| 0 <= q < k ==> (#[trigger] a[q]).dataset_id == b[q].dataset_id,
    ensures
        done_upto(a, k) == done_upto(b, k),
    decreases k,
{
    if k > 0 {
        lemma_done_upto_prefix(a, b, k - 1);
        assert(done_upto(a, k) =~= done_upto(b, k));
    }
}

/// Every earlier round's dataset is among the selected.
proof fn lemma_done_upto_contains(res: Seq<crate::query::GatherResult>, k: int, q: int)
    requires
        0 <= q < k <= res.len(),
    ensures
        done_upto(res, k).contains(res[q].dataset_id),
    decreases k,
{
    if q < k - 1 {
        lemma_done_upto_contains(res, k - 1, q);
    }
}

/// One gather round's record is well-formed for its collection, query and
/// threshold: the selected dataset exists, its name, size and
/// original-query intersection are recorded faithfully, the claimed count
/// reaches the threshold, and the base-pair estimates are the counts at
/// the sketch scale.
pub open spec fn round_ok(
    g: crate::query::GatherResult,
    coll: CollectionSet,
    qmins: Seq<u64>,
    scaled: u64,
    thr: u64,
) -> bool {
    &&& 0 <= g.dataset_id < coll.records@.len()
    &&& g.name@ == coll.records@[g.dataset_id as int].name@
    &&& g.match_size == coll.records@[g.dataset_id as int].sketch.mins@.len()
    &&& g.intersect_orig == crate::query::shared_count(
        coll.records@[g.dataset_id as int].sketch.mins@,
        qmins,
    )
    &&& g.unique_count >= thr
    &&& g.unique_count >= 1
    &&& g.unique_count + g.remaining_count <= qmins.len()
    &&& g.orig_query_size == qmins.len()
    &&& g.scaled == scaled
    &&& g.unique_intersect_bp == g.unique_count * scaled
    &&& g.remaining_bp == g.remaining_count * scaled
}

/// Rebuilds the hash-to-color mapping from hash partition rows: each row
/// is an eight-byte little-endian hash key with an eight-byte little-endian
/// color value. A row of any other shape is a corrupt entry.
pub fn parse_hash_rows(rows: &Vec<(Vec<u8>, Vec<u8>)>) -> (r: Result<HashToColor, Error>)
    ensures
        match r {
            Ok(h) => {
                &&& h.wf()
                &&& forall|k: int|
                    0 <= k < rows@.len() ==> ((#[trigger] rows@[k]).0@.len() == 8
                        && rows@[k].1@.len() == 8)
                &&& forall|x: u64|
                    #[trigger] h.has_hash(x) <==> exists|k: int|
                        0 <= k < rows@.len() && vstd::bytes::spec_u64_from_le_bytes(
                            (#[trigger] rows@[k]).0@,
                        ) == x
                &&& forall|x: u64|
                    #[trigger] h.has_hash(x) ==> exists|k: int|
                        0 <= k < rows@.len() && vstd::bytes::spec_u64_from_le_bytes(
                            (#[trigger] rows@[k]).0@,
                        ) == x && vstd::bytes::spec_u64_from_le_bytes(rows@[k].1@) == h.map()[x]
            },
            Err(e) => {
                &&& e == Error::CorruptEntry
                &&& exists|k: int|
                    0 <= k < rows@.len() && ((#[trigger] rows@[k]).0@.len() != 8
                        || rows@[k].1@.len() != 8)
            },
        },
{
    let mut h = HashToColor::new();
    let mut k: usize = 0;
    while k < rows.len()
        invariant
            k <= rows@.len(),
            h.wf(),
            forall|q: int|
                0 <= q < k ==> ((#[trigger] rows@[q]).0@.len() == 8 && rows@[q].1@.len() == 8),
            forall|x: u64|
                #[trigger] h.has_hash(x) <==> exists|q: int|
                    0 <= q < k && vstd::bytes::spec_u64_from_le_bytes((#[trigger] rows@[q]).0@)
                        == x,
            forall|x: u64|
                #[trigger] h.has_hash(x) ==> exists|q: int|
                    0 <= q < k && vstd::bytes::spec_u64_from_le_bytes((#[trigger] rows@[q]).0@)
                        == x && vstd::bytes::spec_u64_from_le_bytes(rows@[q].1@) == h.map()[x],
        decreases rows@.len() - k,
    {
        if rows[k].0.len() != 8 || rows[k].1.len() != 8 {
            proof {
                assert(rows@[k as int].0@.len() != 8 || rows@[k as int].1@.len() != 8);
            }
            return Err(Error::CorruptEntry);
        }
        let hash = vstd::bytes::u64_from_le_bytes(rows[k].0.as_slice());
        let color = vstd::bytes::u64_from_le_bytes(rows[k].1.as_slice());
        let ghost before = h;
        h.set_color(hash, color);
        proof {
            assert forall|x: u64| #[trigger] h.has_hash(x) implies exists|q: int|
                0 <= q < k + 1 && vstd::bytes::spec_u64_from_le_bytes((#[trigger] rows@[q]).0@)
                    == x by {
                if x == hash {
                    assert(vstd::bytes::spec_u64_from_le_bytes(rows@[k as int].0@) == x);
                } else {
                    assert(before.has_hash(x));
                }
            }
            assert forall|x: u64|
                (exists|q: int|
                    0 <= q < k + 1 && vstd::bytes::spec_u64_from_le_bytes((#[trigger] rows@[q]).0@)
                        == x) implies #[trigger] h.has_hash(x) by {
                let q = choose|q: int|
                    0 <= q < k + 1 && vstd::bytes::spec_u64_from_le_bytes((#[trigger] rows@[q]).0@)
                        == x;
                if q < k {
                    assert(before.has_hash(x));
                }
            }
            assert forall|x: u64| #[trigger] h.has_hash(x) implies exists|q: int|
                0 <= q < k + 1 && vstd::bytes::spec_u64_from_le_bytes((#[trigger] rows@[q]).0@)
                    == x && vstd::bytes::spec_u64_from_le_bytes(rows@[q].1@) == h.map()[x] by {
                if x == hash {
                    assert(h.map()[x] == color);
                    assert(vstd::bytes::spec_u64_from_le_bytes(rows@[k as int].0@) == x
                        && vstd::bytes::spec_u64_from_le_bytes(rows@[k as int].1@) == h.map()[x]);
                } else {
                    assert(before.has_hash(x));
                    let q = choose|q: int|
                        0 <= q < k && vstd::bytes::spec_u64_from_le_bytes(
                            (#[trigger] rows@[q]).0@,
                        ) == x && vstd::bytes::spec_u64_from_le_bytes(rows@[q].1@)
                            == before.map()[x];
                    assert(h.map()[x] == before.map()[x]);
                    assert(vstd::bytes::spec_u64_from_le_bytes(rows@[q].0@) == x
                        && vstd::bytes::spec_u64_from_le_bytes(rows@[q].1@) == h.map()[x]);
                }
            }
        }
        k = k + 1;
    }
    Ok(h)
}

/// A color partition row is well formed for an index over `n` datasets:
/// an eight-byte key, a value decoding to a nonempty member set in its
/// smallest spelling, members below `n`, and the key equal to the color
/// the set derives.
pub open spec fn good_color_row(row: (Vec<u8>, Vec<u8>), n: int) -> bool {
    &&& row.0@.len() == 8
    &&& match crate::datasets::decoded_set(row.1@) {
        Some(s) => {
            &&& s.len() >= 1
            &&& (row.1@.len() != 1 && row.1@.len() != 8 ==> s.len() >= 2)
            &&& (forall|i: u32| s.contains(i) ==> 0 <= i < n)
            &&& vstd::bytes::spec_u64_from_le_bytes(row.0@) == color_of_set(s)
        },
        None => false,
    }
}

/// Rebuilds the color table from color partition rows: each row is an
/// eight-byte little-endian color key and a serialized compact index set.
/// The parse fails, with a corrupt-entry error, exactly when some row is
/// not well formed or a key repeats.
pub fn parse_color_rows(rows: &Vec<(Vec<u8>, Vec<u8>)>, n: usize) -> (r: Result<Colors, Error>)
    ensures
        match r {
            Ok(c) => {
                &&& c.wf()
                &&& forall|x: u64|
                    #[trigger] c.has_color(x) ==> forall|i: u32|
                        c.map()[x].contains(i) ==> 0 <= i < n
                &&& forall|x: u64|
                    #[trigger] c.has_color(x) <==> exists|k: int|
                        0 <= k < rows@.len() && vstd::bytes::spec_u64_from_le_bytes(
                            (#[trigger] rows@[k]).0@,
                        ) == x
                &&& forall|k: int|
                    0 <= k < rows@.len() ==> ((#[trigger] rows@[k]).0@.len() == 8
                        && crate::datasets::decoded_set(rows@[k].1@) == Some(
                        c.map()[vstd::bytes::spec_u64_from_le_bytes(rows@[k].0@)],
                    ))
            },
            Err(e) => e == Error::CorruptEntry,
        },
        (r is Err <==> !((forall|k: int|
            0 <= k < rows@.len() ==> good_color_row(#[trigger] rows@[k], n as int)) && (forall|
            k: int,
            l: int,
        |
            0 <= k < l < rows@.len() ==> vstd::bytes::spec_u64_from_le_bytes(
                (#[trigger] rows@[k]).0@,
            ) != vstd::bytes::spec_u64_from_le_bytes((#[trigger] rows@[l]).0@)))),
{
    let mut entries: Vec<(u64, crate::datasets::Datasets)> = Vec::new();
    let mut k: usize = 0;
    while k < rows.len()
        invariant
            n <= usize::MAX,
            k <= rows@.len(),
            (Colors { entries }).wf(),
            forall|x: u64|
                #[trigger] (Colors { entries }).has_color(x) <==> exists|q: int|
                    0 <= q < k && vstd::bytes::spec_u64_from_le_bytes((#[trigger] rows@[q]).0@)
                        == x,
            forall|x: u64|
                #[trigger] (Colors { entries }).has_color(x) ==> forall|i: u32|
                    (Colors { entries }).map()[x].contains(i) ==> 0 <= i < n,
            forall|q: int|
                0 <= q < k ==> ((#[trigger] rows@[q]).0@.len() == 8
                    && crate::datasets::decoded_set(rows@[q].1@) == Some(
                    (Colors { entries }).map()[vstd::bytes::spec_u64_from_le_bytes(rows@[q].0@)],
                )),
            entries@.len() == k,
            forall|q: int|
                0 <= q < k ==> (#[trigger] entries@[q]).0 == vstd::bytes::spec_u64_from_le_bytes(
                    rows@[q].0@,
                ),
            forall|q: int| 0 <= q < k ==> good_color_row(#[trigger] rows@[q], n as int),
        decreases rows@.len() - k,
    {
        let ghost before = Colors { entries };
        if rows[k].0.len() != 8 {
            proof {
                assert(!good_color_row(rows@[k as int], n as int));
            }
            return Err(Error::CorruptEntry);
        }
        let key = vstd::bytes::u64_from_le_bytes(rows[k].0.as_slice());
        let d = match crate::datasets::Datasets::from_slice(rows[k].1.as_slice()) {
            Some(d) => d,
            None => {
                proof {
                    assert(!good_color_row(rows@[k as int], n as int));
                }
                return Err(Error::CorruptEntry);
            },
        };
        // The smallest spelling must have been used, the set must be
        // nonempty, and its members must be valid dataset indices.
        let members = d.members();
        if members.len() == 0 {
            proof {
                crate::seqs::lemma_ascending_set_len(members@);
                assert(!good_color_row(rows@[k as int], n as int));
            }
            return Err(Error::CorruptEntry);
        }
        match &d {
            crate::datasets::Datasets::Many(_) => {
                if members.len() < 2 {
                    proof {
                        crate::seqs::lemma_ascending_set_len(members@);
                        assert(rows@[k as int].1@.len() != 1 && rows@[k as int].1@.len() != 8);
                        assert(!good_color_row(rows@[k as int], n as int));
                    }
                    return Err(Error::CorruptEntry);
                }
            },
            _ => {},
        }
        if members[members.len() - 1] as usize >= n {
            proof {
                let last = members@[members@.len() - 1];
                assert(members@.contains(last));
                assert(d.set().contains(last));
                assert(!good_color_row(rows@[k as int], n as int));
            }
            return Err(Error::CorruptEntry);
        }
        proof {
            crate::seqs::lemma_ascending_set_len(members@);
            assert forall|i: u32| d.set().contains(i) implies 0 <= i < n by {
                assert(members@.to_set().contains(i));
                let q = choose|q: int| 0 <= q < members@.len() && members@[q] == i;
                if q < members@.len() - 1 {
                    assert(members@[q] < members@[members@.len() - 1]);
                }
            }
        }
        // The key must be the color its member set derives.
        let derived = d.color_hash();
        if derived != key {
            proof {
                assert(!good_color_row(rows@[k as int], n as int));
            }
            return Err(Error::CorruptEntry);
        }
        // A repeated key is a corrupt partition.
        let mut j: usize = 0;
        while j < entries.len()
            invariant
                j <= entries@.len(),
                forall|q: int| 0 <= q < j ==> (#[trigger] entries@[q]).0 != key,
                entries@.len() == k < rows@.len(),
                key == vstd::bytes::spec_u64_from_le_bytes(rows@[k as int].0@),
                forall|q: int|
                    0 <= q < k ==> (#[trigger] entries@[q]).0
                        == vstd::bytes::spec_u64_from_le_bytes(rows@[q].0@),
            decreases entries@.len() - j,
        {
            if entries[j].0 == key {
                proof {
                    assert(entries@[j as int].0 == vstd::bytes::spec_u64_from_le_bytes(
                        rows@[j as int].0@,
                    ));
                    assert(vstd::bytes::spec_u64_from_le_bytes(rows@[j as int].0@)
                        == vstd::bytes::spec_u64_from_le_bytes(rows@[k as int].0@));
                }
                return Err(Error::CorruptEntry);
            }
            j = j + 1;
        }
        proof {
            assert(!(Colors { entries }).has_color(key));
        }
        entries.push((key, d));
        proof {
            let now = Colors { entries };
            assert(forall|q: int|
                0 <= q < before.entries@.len() ==> now.entries@[q] == (
                #[trigger] before.entries@[q]));
            assert(now.entries@[before.entries@.len() as int] == (key, d));
            crate::seqs::lemma_ascending_set_len(members@);
            assert(d.set().len() >= 1);
            assert(d.canonical()) by {
                if d is Many {
                    let b = d->Many_0;
                    crate::seqs::lemma_ascending_set_len(crate::bitmap::rb_seq(b));
                }
            }
            assert(now.wf()) by {
                assert forall|p: int, q: int|
                    0 <= p < q < now.entries@.len() implies now.entries@[p].0
                    != now.entries@[q].0 by {
                    if q == now.entries@.len() - 1 {
                        if now.entries@[p].0 == key {
                            assert(before.has_color(key));
                        }
                    }
                }
            }
            assert forall|x: u64| #[trigger] now.has_color(x) <==> (before.has_color(x) || x
                == key) by {
                if now.has_color(x) {
                    let q = choose|q: int|
                        0 <= q < now.entries@.len() && (#[trigger] now.entries@[q]).0 == x;
                    if q < before.entries@.len() {
                        assert(before.entries@[q].0 == x);
                    }
                }
                if before.has_color(x) {
                    let q = choose|q: int|
                        0 <= q < before.entries@.len() && (#[trigger] before.entries@[q]).0 == x;
                    assert(now.entries@[q].0 == x);
                }
                if x == key {
                    assert(now.entries@[now.entries@.len() - 1].0 == x);
                }
            }
            assert forall|x: u64| #[trigger] now.has_color(x) implies now.map()[x] == (
                if x == key {
                    d.set()
                } else {
                    before.map()[x]
                }) by {
                if x == key {
                    now.lemma_lookup(now.entries@.len() - 1);
                } else {
                    let q = choose|q: int|
                        0 <= q < before.entries@.len() && (#[trigger] before.entries@[q]).0 == x;
                    now.lemma_lookup(q);
                    before.lemma_lookup(q);
                }
            }
            assert forall|q: int|
                0 <= q < k + 1 implies ((#[trigger] rows@[q]).0@.len() == 8
                && crate::datasets::decoded_set(rows@[q].1@) == Some(
                (Colors { entries }).map()[vstd::bytes::spec_u64_from_le_bytes(rows@[q].0@)],
            )) by {
                let x = vstd::bytes::spec_u64_from_le_bytes(rows@[q].0@);
                if q < k {
                    assert(before.has_color(x));
                    assert(x != key) by {
                        if x == key {
                            assert(before.has_color(key));
                        }
                    }
                    assert(now.has_color(x));
                    assert(now.map()[x] == before.map()[x]);
                } else {
                    assert(now.map()[key] == d.set());
                }
            }
            assert forall|x: u64| #[trigger] (Colors { entries }).has_color(x) <==> exists|q: int|
                0 <= q < k + 1 && vstd::bytes::spec_u64_from_le_bytes((#[trigger] rows@[q]).0@)
                    == x by {
                if x == key {
                    assert(vstd::bytes::spec_u64_from_le_bytes(rows@[k as int].0@) == x);
                }
                if (Colors { entries }).has_color(x) && x != key {
                    assert(before.has_color(x));
                }
                if exists|q: int|
                    0 <= q < k + 1 && vstd::bytes::spec_u64_from_le_bytes((#[trigger] rows@[q]).0@)
                        == x {
                    let q = choose|q: int|
                        0 <= q < k + 1 && vstd::bytes::spec_u64_from_le_bytes(
                            (#[trigger] rows@[q]).0@,
                        ) == x;
                    if q < k {
                        assert(before.has_color(x));
                    }
                }
            }
            assert(good_color_row(rows@[k as int], n as int)) by {
                assert(crate::datasets::decoded_set(rows@[k as int].1@) == Some(d.set()));
                if rows@[k as int].1@.len() != 1 && rows@[k as int].1@.len() != 8 {
                    assert(d is Many);
                }
                assert(vstd::bytes::spec_u64_from_le_bytes(rows@[k as int].0@) == key);
                assert(color_of_set(d.set()) == derived);
            }
        }
        k = k + 1;
    }
    proof {
        let c = Colors { entries };
        assert forall|k2: int, l2: int|
            0 <= k2 < l2 < rows@.len() implies vstd::bytes::spec_u64_from_le_bytes(
            (#[trigger] rows@[k2]).0@,
        ) != vstd::bytes::spec_u64_from_le_bytes((#[trigger] rows@[l2]).0@) by {
            assert(c.entries@[k2].0 != c.entries@[l2].0);
            assert(c.entries@[k2].0 == vstd::bytes::spec_u64_from_le_bytes(rows@[k2].0@));
            assert(c.entries@[l2].0 == vstd::bytes::spec_u64_from_le_bytes(rows@[l2].0@));
        }
    }
    Ok(Colors { entries })
}

/// The union of the member sets of the first `k` color-table entries.
pub open spec fn colors_union(entries: Seq<(u64, crate::datasets::Datasets)>, k: int) -> Set<
    u32,
>
    decreases k,
{
    if k <= 0 {
        Set::empty()
    } else {
        colors_union(entries, k - 1).union(entries[k - 1].1.set())
    }
}

/// Eight-byte keys sum to eight bytes per row.
proof fn lemma_key_sum(rows: Seq<(Vec<u8>, Vec<u8>)>, k: int)
    requires
        0 <= k <= rows.len(),
        forall|q: int| 0 <= q < rows.len() ==> (#[trigger] rows[q]).0@.len() == 8,
    ensures
        crate::stats::sum_key_lens(rows, k) == k * 8,
    decreases k,
{
    if k > 0 {
        lemma_key_sum(rows, k - 1);
    }
}

/// The union of decoded row values is the union of the stored member sets.
proof fn lemma_union_transfer(
    rows: Seq<(Vec<u8>, Vec<u8>)>,
    entries: Seq<(u64, crate::datasets::Datasets)>,
    k: int,
)
    requires
        0 <= k <= rows.len(),
        rows.len() == entries.len(),
        forall|q: int|
            0 <= q < rows.len() ==> crate::datasets::decoded_set((#[trigger] rows[q]).1@) == Some(
                entries[q].1.set(),
            ),
    ensures
        crate::stats::decoded_union(rows, k) == colors_union(entries, k),
    decreases k,
{
    if k > 0 {
        lemma_union_transfer(rows, entries, k - 1);
        assert(crate::stats::decoded_union(rows, k) =~= colors_union(entries, k));
    } else {
        assert(crate::stats::decoded_union(rows, k) =~= colors_union(entries, k));
    }
}

/// Two collection snapshots describe the same datasets: same selection,
/// and pointwise the same names, locations and sketches.
pub open spec fn same_collection(a: CollectionSet, b: CollectionSet) -> bool {
    &&& a.selection == b.selection
    &&& a.records@.len() == b.records@.len()
    &&& forall|i: int|
        0 <= i < a.records@.len() ==> ((#[trigger] a.records@[i]).name@ == b.records@[i].name@
            && a.records@[i].sketch.mins@ == b.records@[i].sketch.mins@
            && a.records@[i].sketch.ksize == b.records@[i].sketch.ksize
            && a.records@[i].sketch.scaled == b.records@[i].sketch.scaled)
}

/// `bigger` keeps every dataset of `smaller`, in place, under the same
/// selection; new datasets may follow.
pub open spec fn extends_collection(bigger: CollectionSet, smaller: CollectionSet) -> bool {
    &&& bigger.selection == smaller.selection
    &&& bigger.records@.len() >= smaller.records@.len()
    &&& forall|i: int|
        0 <= i < smaller.records@.len() ==> (#[trigger] bigger.records@[i]).sketch.mins@
            == smaller.records@[i].sketch.mins@
}

/// Runtime check for [`extends_collection`].
fn extends_check(bigger: &CollectionSet, smaller: &CollectionSet) -> (r: bool)
    ensures
        r == extends_collection(*bigger, *smaller),
{
    if !(bigger.selection.ksize == smaller.selection.ksize && bigger.selection.scaled
        == smaller.selection.scaled) {
        proof {
            assert(bigger.selection != smaller.selection);
        }
        return false;
    }
    if bigger.records.len() < smaller.records.len() {
        return false;
    }
    let mut i: usize = 0;
    while i < smaller.records.len()
        invariant
            smaller.records@.len() <= bigger.records@.len(),
            i <= smaller.records@.len(),
            forall|q: int|
                0 <= q < i ==> (#[trigger] bigger.records@[q]).sketch.mins@
                    == smaller.records@[q].sketch.mins@,
        decreases smaller.records@.len() - i,
    {
        if !vec_eq64(&bigger.records[i].sketch.mins, &smaller.records[i].sketch.mins) {
            return false;
        }
        i = i + 1;
    }
    true
}

/// Elementwise equality of two hash vectors.
fn vec_eq64(a: &Vec<u64>, b: &Vec<u64>) -> (r: bool)
    ensures
        r <==> a@ == b@,
{
    if a.len() != b.len() {
        proof {
            assert(a@.len() != b@.len());
        }
        return false;
    }
    let mut k: usize = 0;
    while k < a.len()
        invariant
            k <= a@.len(),
            a@.len() == b@.len(),
            forall|i: int| 0 <= i < k ==> a@[i] == b@[i],
        decreases a@.len() - k,
    {
        if a[k] != b[k] {
            proof {
                assert(a@[k as int] != b@[k as int]);
            }
            return false;
        }
        k = k + 1;
    }
    proof {
        assert(a@ =~= b@);
    }
    true
}

/// An exact mapping only mentions indices below the collection's size.
pub proof fn lemma_exact_is_bounded(h2c: HashToColor, colors: Colors, coll: CollectionSet)
    requires
        exact_upto(h2c, colors, coll, coll.records@.len() as int),
    ensures
        bounded_mapping(resolved(h2c, colors), coll.records@.len() as int),
{
    let m = resolved(h2c, colors);
    assert forall|h: u64, i: u32|
        m.dom().contains(h) && #[trigger] m[h].contains(i) implies 0 <= i
        < coll.records@.len() by {
        assert(h2c.has_hash(h));
        assert(m[h] == colors.map()[h2c.map()[h]]);
        assert(colors.map()[h2c.map()[h]] == member_set_upto(
            coll,
            h,
            coll.records@.len() as int,
        ));
    }
}

/// Exactness, the family invariant and collision freedom carry over from
/// an indexed collection to any snapshot that extends it, dataset by
/// dataset.
pub proof fn lemma_extends_transfers(
    bigger: CollectionSet,
    smaller: CollectionSet,
    h2c: HashToColor,
    colors: Colors,
)
    requires
        extends_collection(bigger, smaller),
        exact_upto(h2c, colors, smaller, smaller.records@.len() as int),
        family_table(colors, smaller),
    ensures
        exact_upto(h2c, colors, bigger, smaller.records@.len() as int),
        family_table(colors, bigger),
{
    let n = smaller.records@.len() as int;
    assert forall|h: u64, k: int|
        0 <= k <= n implies member_set_upto(bigger, h, k) == member_set_upto(smaller, h, k) by {
        assert(member_set_upto(bigger, h, k) =~= member_set_upto(smaller, h, k));
    }
    assert forall|x: u64| #[trigger] h2c.has_hash(x) implies occurs_upto(bigger, x, n) by {
        let d = choose|d: int|
            0 <= d < n && (#[trigger] smaller.records@[d]).sketch.mins@.contains(x);
        assert(bigger.records@[d].sketch.mins@.contains(x));
    }
    assert forall|x: u64| occurs_upto(bigger, x, n) implies #[trigger] h2c.has_hash(x) by {
        let d = choose|d: int|
            0 <= d < n && (#[trigger] bigger.records@[d]).sketch.mins@.contains(x);
        assert(smaller.records@[d].sketch.mins@.contains(x));
        assert(occurs_upto(smaller, x, n));
    }
    assert forall|c: u64| #[trigger] colors.has_color(c) implies in_family(
        bigger,
        colors.map()[c],
    ) by {
        assert(in_family(smaller, colors.map()[c]));
        let (h, d) = choose|h: u64, d: int|
            0 <= d < smaller.records@.len() && #[trigger] smaller.records@[d].sketch.mins@.contains(
                h,
            ) && colors.map()[c] == member_set_upto(smaller, h, d + 1);
        assert(bigger.records@[d].sketch.mins@.contains(h));
        assert(member_set_upto(bigger, h, d + 1) == member_set_upto(smaller, h, d + 1));
    }
}

/// Deep copies for conversion into another backend instance.
fn clone_collection(c: &CollectionSet) -> (r: CollectionSet)
    ensures
        r.selection == c.selection,
        r.records@.len() == c.records@.len(),
        forall|i: int|
            0 <= i < c.records@.len() ==> ((#[trigger] r.records@[i]).name@ == c.records@[i].name@
                && r.records@[i].sketch.mins@ == c.records@[i].sketch.mins@ && r.records@[i].sketch.ksize
                == c.records@[i].sketch.ksize && r.records@[i].sketch.scaled
                == c.records@[i].sketch.scaled),
        c.wf() ==> r.wf(),
{
    let mut records: Vec<crate::collection::Record> = Vec::new();
    let mut i: usize = 0;
    while i < c.records.len()
        invariant
            i <= c.records@.len(),
            records@.len() == i,
            forall|q: int|
                0 <= q < i ==> ((#[trigger] records@[q]).name@ == c.records@[q].name@ && records@[
                    q
                ].sketch.mins@ == c.records@[q].sketch.mins@ && records@[q].sketch.ksize
                    == c.records@[q].sketch.ksize && records@[q].sketch.scaled
                    == c.records@[q].sketch.scaled && records@[q].storage_location@ == c.records@[
                    q
                ].storage_location@),
        decreases c.records@.len() - i,
    {
        let rec = &c.records[i];
        records.push(
            crate::collection::Record {
                name: rec.name.clone(),
                storage_location: rec.storage_location.clone(),
                sketch: rec.sketch.clone(),
            },
        );
        i = i + 1;
    }
    CollectionSet { selection: c.selection, storage: c.storage.clone(), records }
}

/// Deep copy of the hash-to-color mapping.
fn clone_h2c(h: &HashToColor) -> (r: HashToColor)
    ensures
        r.entries@ == h.entries@,
{
    let mut entries: Vec<(u64, u64)> = Vec::new();
    let mut i: usize = 0;
    while i < h.entries.len()
        invariant
            i <= h.entries@.len(),
            entries@ == h.entries@.take(i as int),
        decreases h.entries@.len() - i,
    {
        entries.push(h.entries[i]);
        proof {
            assert(entries@ =~= h.entries@.take(i as int + 1));
        }
        i = i + 1;
    }
    proof {
        assert(h.entries@.take(h.entries@.len() as int) =~= h.entries@);
    }
    HashToColor { entries }
}

/// Deep copy of the color table.
fn clone_colors(c: &Colors) -> (r: Colors)
    ensures
        c.wf() ==> (r.wf() && r.map() == c.map()),
{
    let mut entries: Vec<(u64, crate::datasets::Datasets)> = Vec::new();
    let mut i: usize = 0;
    while i < c.entries.len()
        invariant
            i <= c.entries@.len(),
            entries@.len() == i,
            forall|q: int|
                0 <= q < i ==> ((#[trigger] entries@[q]).0 == c.entries@[q].0 && entries@[q].1.set()
                    == c.entries@[q].1.set() && (c.entries@[q].1.canonical()
                    ==> entries@[q].1.canonical()) && (c.entries@[q].1.wf() ==> entries@[q].1.wf())),
        decreases c.entries@.len() - i,
    {
        let key = c.entries[i].0;
        let val = c.entries[i].1.clone();
        entries.push((key, val));
        i = i + 1;
    }
    let r = Colors { entries };
    proof {
        if c.wf() {
            assert(r.wf()) by {
                assert forall|p: int, q: int|
                    0 <= p < q < r.entries@.len() implies r.entries@[p].0 != r.entries@[q].0 by {
                    assert(c.entries@[p].0 != c.entries@[q].0);
                }
            }
            assert forall|x: u64| #[trigger] r.has_color(x) <==> c.has_color(x) by {
                if r.has_color(x) {
                    let q = choose|q: int|
                        0 <= q < r.entries@.len() && (#[trigger] r.entries@[q]).0 == x;
                    assert(c.entries@[q].0 == x);
                }
                if c.has_color(x) {
                    let q = choose|q: int|
                        0 <= q < c.entries@.len() && (#[trigger] c.entries@[q]).0 == x;
                    assert(r.entries@[q].0 == x);
                }
            }
            assert(r.map() =~= c.map()) by {
                assert forall|x: u64| #[trigger] r.has_color(x) implies r.map()[x]
                    == c.map()[x] by {
                    let q = choose|q: int|
                        0 <= q < r.entries@.len() && (#[trigger] r.entries@[q]).0 == x;
                    r.lemma_lookup(q);
                    c.lemma_lookup(q);
                }
            }
        }
    }
    r
}

/// The datasets whose count reaches the threshold, ranked by count
/// descending with ties broken by ascending dataset index — the unique
/// sequence with exactly the qualifying entries in strictly that order.
pub open spec fn is_ranked(counts: Seq<u64>, threshold: u64, ord: Seq<(u32, u64)>) -> bool {
    &&& forall|k: int|
        0 <= k < ord.len() ==> ((#[trigger] ord[k]).0 < counts.len() && ord[k].1 == counts[
            ord[k].0 as int
        ] && ord[k].1 >= threshold && ord[k].1 >= 1)
    &&& forall|k: int, l: int|
        0 <= k < l < ord.len() ==> ((#[trigger] ord[k]).1 > (#[trigger] ord[l]).1 || (ord[k].1
            == ord[l].1 && ord[k].0 < ord[l].0))
    &&& forall|i: u32|
        0 <= i < counts.len() && #[trigger] counts[i as int] >= threshold && counts[i as int] >= 1
            ==> exists|k: int| 0 <= k < ord.len() && (#[trigger] ord[k]).0 == i
}

/// The member set of dataset indices below `n` whose sketches contain `h`.
pub open spec fn member_set_upto(coll: CollectionSet, h: u64, n: int) -> Set<u32> {
    Set::new(|x: u32| 0 <= x < n && coll.records@[x as int].sketch.mins@.contains(h))
}

/// The member set of all dataset indices whose sketches contain `h`.
pub open spec fn membership(coll: CollectionSet, h: u64) -> Set<u32> {
    member_set_upto(coll, h, coll.records@.len() as int)
}

/// Whether any dataset below `n` contributes the hash `h`.
pub open spec fn occurs_upto(coll: CollectionSet, h: u64, n: int) -> bool {
    exists|d: int|
        0 <= d < n && (#[trigger] coll.records@[d]).sketch.mins@.contains(h)
}

/// The pair maps exactly the hashes the first `n` datasets contribute, each
/// resolved to its member set among those datasets.
pub open spec fn exact_upto(h2c: HashToColor, colors: Colors, coll: CollectionSet, n: int) -> bool {
    &&& forall|x: u64| #[trigger] h2c.has_hash(x) <==> occurs_upto(coll, x, n)
    &&& forall|x: u64|
        #[trigger] h2c.has_hash(x) ==> colors.map()[h2c.map()[x]] == member_set_upto(coll, x, n)
}

/// The member sets that ever get colored while building the mapping for a
/// collection: for each dataset `d` and each hash `h` it contributes, the
/// membership of `h` among the datasets up to and including `d`.
pub open spec fn in_family(coll: CollectionSet, s: Set<u32>) -> bool {
    exists|h: u64, d: int|
        0 <= d < coll.records@.len() && #[trigger] coll.records@[d].sketch.mins@.contains(h) && s
            == member_set_upto(coll, h, d + 1)
}

/// The color derivation separates every pair of member sets the build of
/// this collection colors.
pub open spec fn collision_free(coll: CollectionSet) -> bool {
    forall|s1: Set<u32>, s2: Set<u32>|
        in_family(coll, s1) && in_family(coll, s2) && #[trigger] color_of_set(s1)
            == #[trigger] color_of_set(s2) ==> s1 == s2
}

/// Every set stored in the color table was colored by this collection's
/// build.
pub open spec fn family_table(colors: Colors, coll: CollectionSet) -> bool {
    forall|c: u64| #[trigger] colors.has_color(c) ==> in_family(coll, colors.map()[c])
}

/// Extends a (mapping, color table) pair with the datasets of `coll` from
/// position `start` on: for every hash such a dataset contributes, the
/// dataset's index is merged into the hash's member set through the color
/// table.
///
/// On success the pair maps exactly the hashes of the whole collection.
/// The only failure is a color collision between two distinct member sets;
/// a collision-free collection (starting from a table the same build
/// produced) is owed success, and a reported collision is a true one.
#[verifier::loop_isolation(false)]
pub fn build_from(
    coll: &CollectionSet,
    start: usize,
    h2c: HashToColor,
    colors: Colors,
) -> (r: Result<(HashToColor, Colors), Error>)
    requires
        coll.wf(),
        coll.records@.len() <= u32::MAX,
        start <= coll.records@.len(),
        h2c.wf(),
        colors.wf(),
        linked(h2c, colors),
        exact_upto(h2c, colors, *coll, start as int),
    ensures
        match r {
            Ok(p) => {
                &&& p.0.wf()
                &&& p.1.wf()
                &&& linked(p.0, p.1)
                &&& exact_upto(p.0, p.1, *coll, coll.records@.len() as int)
                &&& (family_table(colors, *coll) ==> family_table(p.1, *coll))
            },
            Err(e) => {
                &&& e == Error::ColorCollision
                &&& (family_table(colors, *coll) ==> !collision_free(*coll))
            },
        },
        family_table(colors, *coll) && collision_free(*coll) ==> r is Ok,
    {
        let ghost fam_pre = family_table(colors, *coll);
        let mut h2c = h2c;
        let mut colors = colors;
        let n = coll.records.len();
        let mut i: usize = start;
        while i < n
            invariant
                coll.wf(),
                coll.records@.len() <= u32::MAX,
                n == coll.records@.len(),
                start <= i <= n,
                h2c.wf(),
                colors.wf(),
                linked(h2c, colors),
                exact_upto(h2c, colors, *coll, i as int),
                fam_pre ==> family_table(colors, *coll),
            decreases n - i,
        {
            let ghost coll_g = *coll;
            let mins = &coll.records[i].sketch.mins;
            let mut single_v: Vec<u32> = Vec::new();
            single_v.push(i as u32);
            proof {
                assert(single_v@[0] == i as u32);
                assert(crate::seqs::ascending(single_v@));
            }
            let mut p: usize = 0;
            proof {
                assert forall|x: u64| mid_set(*coll, x, i as int, 0) =~= member_set_upto(
                    *coll,
                    x,
                    i as int,
                ) by {}
            }
            while p < mins.len()
                invariant
                    coll.wf(),
                    coll.records@.len() <= u32::MAX,
                    n == coll.records@.len(),
                    0 <= i < n,
                    mins@ == coll.records@[i as int].sketch.mins@,
                    p <= mins@.len(),
                    single_v@.len() == 1 && single_v@[0] == i as u32,
                    crate::seqs::ascending(single_v@),
                    h2c.wf(),
                    colors.wf(),
                    linked(h2c, colors),
                    forall|x: u64|
                        #[trigger] h2c.has_hash(x) <==> (occurs_upto(*coll, x, i as int)
                            || mins@.take(p as int).contains(x)),
                    forall|x: u64|
                        #[trigger] h2c.has_hash(x) ==> colors.map()[h2c.map()[x]] == mid_set(
                            *coll,
                            x,
                            i as int,
                            p as int,
                        ),
                    fam_pre ==> family_table(colors, *coll),
                decreases mins@.len() - p,
            {
                let h = mins[p];
                let ghost prev_h2c = h2c;
                let ghost prev_colors = colors;
                let cur = h2c.get(&h);
                proof {
                    assert(single_v@.to_set() =~= Set::<u32>::empty().insert(i as u32));
                    if cur is Some {
                        assert(colors.has_color(h2c.map()[h]));
                    }
                }
                let ghost prev_set = match cur {
                    Some(c) => colors.map()[c],
                    None => Set::<u32>::empty(),
                };
                let ghost m = prev_set.union(single_v@.to_set());
                proof {
                    assert(mins@.take(p as int + 1).drop_last() =~= mins@.take(p as int));
                    assert(mins@.take(p as int + 1).last() == h);
                    assert forall|x: u64| mins@.take(p as int + 1).contains(x) implies (x == h
                        || mins@.take(p as int).contains(x)) by {
                        let q = choose|q: int|
                            0 <= q < p + 1 && #[trigger] mins@.take(p as int + 1)[q] == x;
                        if q < p {
                            assert(mins@.take(p as int)[q] == x);
                        }
                    }
                    assert forall|x: u64| mins@.take(p as int).contains(x) implies mins@.take(
                        p as int + 1,
                    ).contains(x) by {
                        let q = choose|q: int| 0 <= q < p && #[trigger] mins@.take(p as int)[q] == x;
                        assert(mins@.take(p as int + 1)[q] == x);
                    }
                    assert(mins@.take(p as int + 1).contains(h)) by {
                        assert(mins@.take(p as int + 1)[p as int] == h);
                    }
                    assert(mins@.contains(h)) by {
                        assert(mins@[p as int] == h);
                    }
                    assert(m =~= mid_set(*coll, h, i as int, p as int + 1)) by {
                        if cur is Some {
                            assert(h2c.has_hash(h));
                            assert(prev_set == mid_set(*coll, h, i as int, p as int));
                        } else {
                            assert(!h2c.has_hash(h));
                            assert(!occurs_upto(*coll, h, i as int));
                            assert(!mins@.take(p as int).contains(h));
                        }
                    }
                    assert(in_family(*coll, m)) by {
                        assert(m =~= member_set_upto(*coll, h, i as int + 1)) by {
                            assert(coll.records@[i as int].sketch.mins@.contains(h));
                        }
                        assert(coll.records@[i as int].sketch.mins@.contains(h));
                    }
                }
                let c_new = match colors.update(cur, &single_v) {
                    Ok(c) => c,
                    Err(e) => {
                        proof {
                            if fam_pre {
                                let bad = color_of_set(m);
                                let s1 = prev_colors.map()[bad];
                                assert(prev_colors.has_color(bad));
                                assert(in_family(*coll, s1));
                                assert(color_of_set(s1) == bad) by {
                                    let bi = prev_colors.idx_of(bad);
                                    prev_colors.lemma_lookup(bi);
                                }
                                assert(!collision_free(*coll)) by {
                                    assert(in_family(*coll, s1));
                                    assert(in_family(*coll, m));
                                    assert(color_of_set(s1) == color_of_set(m));
                                    assert(s1 != m);
                                }
                            }
                        }
                        return Err(e);
                    },
                };
                h2c.set_color(h, c_new);
                proof {
                    assert(colors.has_color(c_new)) by {
                        assert(colors.map().dom().contains(c_new));
                    }
                    assert(linked(h2c, colors)) by {
                        assert forall|x: u64| h2c.has_hash(x) implies colors.has_color(
                            #[trigger] h2c.map()[x],
                        ) by {
                            if x != h {
                                assert(prev_h2c.has_hash(x));
                                assert(prev_colors.has_color(prev_h2c.map()[x]));
                                let cx = prev_h2c.map()[x];
                                assert(prev_colors.map().dom().contains(cx));
                                assert(colors.map().dom().contains(cx));
                            }
                        }
                    }
                    assert forall|x: u64| #[trigger] h2c.has_hash(x) implies colors.map()[
                        h2c.map()[x]
                    ] == mid_set(*coll, x, i as int, p as int + 1) by {
                        if x == h {
                            assert(h2c.map()[x] == c_new);
                            assert(colors.map()[c_new] == m);
                        } else {
                            assert(prev_h2c.has_hash(x));
                            let cx = prev_h2c.map()[x];
                            assert(h2c.map()[x] == cx);
                            assert(prev_colors.has_color(cx));
                            assert(prev_colors.map().dom().contains(cx));
                            assert(colors.map().dom().contains(cx));
                            if colors.map()[cx] != prev_colors.map()[cx] {
                                assert(false);
                            }
                            assert(mid_set(*coll, x, i as int, p as int) =~= mid_set(
                                *coll,
                                x,
                                i as int,
                                p as int + 1,
                            ));
                        }
                    }
                    if fam_pre {
                        assert(family_table(colors, *coll)) by {
                            assert forall|c: u64| #[trigger] colors.has_color(c)
                                implies in_family(*coll, colors.map()[c]) by {
                                assert(colors.map().dom().contains(c));
                                if c == c_new {
                                    assert(colors.map()[c] == m);
                                } else {
                                    if prev_colors.map().dom().contains(c) {
                                        assert(prev_colors.has_color(c));
                                        assert(colors.map()[c] == prev_colors.map()[c]);
                                    } else {
                                        assert(false);
                                    }
                                }
                            }
                        }
                    }
                }
                p = p + 1;
            }
            proof {
                assert(mins@.take(mins@.len() as int) =~= mins@);
                assert forall|x: u64| #[trigger] h2c.has_hash(x) implies (occurs_upto(
                    *coll,
                    x,
                    i as int + 1,
                ) <==> h2c.has_hash(x)) by {}
                assert forall|x: u64| occurs_upto(*coll, x, i as int + 1)
                    implies #[trigger] h2c.has_hash(x) by {
                    let d = choose|d: int|
                        0 <= d < i + 1 && (#[trigger] coll.records@[d]).sketch.mins@.contains(x);
                    if d < i {
                        assert(occurs_upto(*coll, x, i as int));
                    }
                }
                assert forall|x: u64| #[trigger] h2c.has_hash(x) implies occurs_upto(
                    *coll,
                    x,
                    i as int + 1,
                ) by {
                    if occurs_upto(*coll, x, i as int) {
                        let d = choose|d: int|
                            0 <= d < i && (#[trigger] coll.records@[d]).sketch.mins@.contains(x);
                    } else {
                        assert(mins@.contains(x));
                        assert(coll.records@[i as int].sketch.mins@.contains(x));
                    }
                }
                assert forall|x: u64| #[trigger] h2c.has_hash(x) implies colors.map()[h2c.map()[x]]
                    == member_set_upto(*coll, x, i as int + 1) by {
                    assert(colors.map()[h2c.map()[x]] == mid_set(
                        *coll,
                        x,
                        i as int,
                        mins@.len() as int,
                    ));
                    assert(mid_set(*coll, x, i as int, mins@.len() as int) =~= member_set_upto(
                        *coll,
                        x,
                        i as int + 1,
                    ));
                }
            }
            i = i + 1;
        }
        proof {
            if fam_pre && collision_free(*coll) {
            }
        }
        Ok((h2c, colors))
    }

/// The member set of `h` while dataset `i` is being folded in and the
/// first `p` of its hashes have been processed.
pub open spec fn mid_set(coll: CollectionSet, h: u64, i: int, p: int) -> Set<u32> {
    member_set_upto(coll, h, i).union(
        if coll.records@[i].sketch.mins@.take(p).contains(h) {
            Set::empty().insert(i as u32)
        } else {
            Set::empty()
        },
    )
}

} // verus!
