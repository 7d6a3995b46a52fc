//! Variant dispatch over the closed set of index backends, and the
//! lifecycle entry points: building a fresh index and opening a persisted
//! one from its read-back partitions.

use crate::collection::{CollectionSet, KmerMinHash};
use crate::disk_revindex;
use crate::disk_revindex::{parse_color_rows, parse_hash_rows};
use crate::hash_to_color::linked;
use crate::query::SigCounter;
use crate::stats::DbStats;
use crate::Error;
use crate::StorageSpec;
use vstd::prelude::*;

verus! {

/// The name of the metadata partition.
pub const METADATA: &'static str = "metadata";

/// The name of the hash partition.
pub const HASHES: &'static str = "hashes";

/// The reserved partition name whose presence marks the color-table
/// variant (which keeps pending unmerged colors there).
pub const COLORS: &'static str = "colors";

/// The plain layout's color partition: color id to serialized compact
/// index set.
pub const COLOR_SETS: &'static str = "color_sets";

/// The format version this layout writes and accepts.
pub const DB_VERSION: u8 = 1;

/// Everything read back from a persisted index: the store's partition
/// names, the metadata values, the loaded collection, and the raw rows of
/// the hash and color partitions. The caller owns the store engine and
/// reads these; the library decides what they mean.
pub struct IndexDump {
    pub cf_names: Vec<String>,
    pub version: u8,
    pub storage_spec: StorageSpec,
    pub location: String,
    pub collection: CollectionSet,
    pub hash_rows: Vec<(Vec<u8>, Vec<u8>)>,
    pub color_rows: Vec<(Vec<u8>, Vec<u8>)>,
}

/// The reverse index, polymorphic over its backend variants. Only the
/// persistent disk-backed variant is implemented; the color-table variant
/// is detected at open time and refused.
pub enum RevIndex {
    Plain(disk_revindex::RevIndex),
}

/// Every partition row of a dump decodes and links up: hash rows are two
/// eight-byte fields, every color row passes the color partition's
/// validation with no repeated key, and every color a hash row names is
/// allocated by some color row. Dumps the library itself writes are of
/// this shape.
pub open spec fn rows_well_formed(index: IndexDump) -> bool {
    &&& forall|k: int|
        0 <= k < index.hash_rows@.len() ==> ((#[trigger] index.hash_rows@[k]).0@.len() == 8
            && index.hash_rows@[k].1@.len() == 8)
    &&& forall|k: int|
        0 <= k < index.color_rows@.len() ==> disk_revindex::good_color_row(
            #[trigger] index.color_rows@[k],
            index.collection.records@.len() as int,
        )
    &&& forall|k: int, l: int|
        0 <= k < l < index.color_rows@.len() ==> vstd::bytes::spec_u64_from_le_bytes(
            (#[trigger] index.color_rows@[k]).0@,
        ) != vstd::bytes::spec_u64_from_le_bytes((#[trigger] index.color_rows@[l]).0@)
    &&& forall|k: int|
        0 <= k < index.hash_rows@.len() ==> exists|l: int|
            0 <= l < index.color_rows@.len() && vstd::bytes::spec_u64_from_le_bytes(
                (#[trigger] index.color_rows@[l]).0@,
            ) == vstd::bytes::spec_u64_from_le_bytes((#[trigger] index.hash_rows@[k]).1@)
}

/// Whether one of the names spells `target`.
pub open spec fn spec_has_name(names: Seq<String>, target: Seq<char>) -> bool {
    exists|i: int| 0 <= i < names.len() && (#[trigger] names[i])@ == target
}

/// Linear scan for a partition name.
fn contains_name(names: &Vec<String>, target: &String) -> (r: bool)
    ensures
        r == spec_has_name(names@, target@),
{
    let mut j: usize = 0;
    while j < names.len()
        invariant
            j <= names@.len(),
            forall|q: int| 0 <= q < j ==> (#[trigger] names@[q])@ != target@,
        decreases names@.len() - j,
    {
        if names[j].eq(target) {
            return true;
        }
        j = j + 1;
    }
    false
}

impl RevIndex {
    /// The disk-backed content behind the dispatch.
    pub open spec fn plain(self) -> disk_revindex::RevIndex {
        match self {
            RevIndex::Plain(d) => d,
        }
    }

    /// Structural well-formedness of the selected variant.
    pub open spec fn valid(self) -> bool {
        self.plain().valid()
    }

    /// The semantic content: each indexed hash resolved to its member set.
    pub open spec fn mapping(self) -> Map<u64, Set<u32>> {
        self.plain().mapping()
    }

    /// Builds a fresh persistent index from a collection snapshot. The
    /// colored backend is not implemented and is refused explicitly.
    pub fn create(index: String, collection: CollectionSet, colors: bool) -> (r: Result<
        RevIndex,
        Error,
    >)
        requires
            collection.wf(),
            collection.records@.len() <= u32::MAX,
        ensures
            match r {
                Ok(idx) => {
                    &&& !colors
                    &&& idx.valid()
                    &&& idx.plain().is_exact()
                    &&& idx.plain().collection == collection
                    &&& !idx.plain().read_only
                    &&& disk_revindex::family_table(idx.plain().colors, collection)
                },
                Err(e) => {
                    &&& (colors <==> e == Error::UnsupportedVariant)
                    &&& (!colors ==> e == Error::ColorCollision && !disk_revindex::collision_free(
                        collection,
                    ))
                },
            },
            !colors && disk_revindex::collision_free(collection) ==> r is Ok,
    {
        if colors {
            return Err(Error::UnsupportedVariant);
        }
        let storage_spec = collection.storage.clone();
        match disk_revindex::RevIndex::create(index, collection, storage_spec) {
            Ok(d) => Ok(RevIndex::Plain(d)),
            Err(e) => Err(e),
        }
    }

    /// Opens a persisted index from its read-back partitions. The variant
    /// is detected by the reserved color partition name: the color-table
    /// variant refuses a read-only open (its pending merges are unsafe to
    /// expose) and is otherwise unimplemented. A missing partition or an
    /// unknown format version means no valid index is there. External
    /// dataset storage that the caller could not resolve is only usable
    /// through an explicit override.
    #[verifier::loop_isolation(false)]
    pub fn open(
        index: IndexDump,
        read_only: bool,
        spec: Option<StorageSpec>,
        storage_accessible: bool,
    ) -> (r: Result<RevIndex, Error>)
        requires
            index.collection.wf(),
            index.collection.records@.len() <= u32::MAX,
        ensures
            ({
                let has_colors_cf = spec_has_name(index.cf_names@, COLORS@);
                let well_named = spec_has_name(index.cf_names@, METADATA@) && spec_has_name(
                    index.cf_names@,
                    HASHES@,
                ) && index.version == DB_VERSION;
                &&& (r == Result::<RevIndex, Error>::Err(Error::ReadOnlyViolation) <==> (
                has_colors_cf && read_only))
                &&& (r == Result::<RevIndex, Error>::Err(Error::UnsupportedVariant) <==> (
                has_colors_cf && !read_only))
                &&& (r == Result::<RevIndex, Error>::Err(Error::NotFound) <==> (!has_colors_cf
                    && !well_named))
                &&& (r == Result::<RevIndex, Error>::Err(Error::MovedStorage) <==> (!has_colors_cf
                    && well_named && !storage_accessible && (match spec {
                    Some(s) => s is External,
                    None => index.storage_spec is External,
                })))
                &&& (r is Err ==> (r == Result::<RevIndex, Error>::Err(Error::CorruptEntry) || r
                    == Result::<RevIndex, Error>::Err(Error::ReadOnlyViolation) || r == Result::<
                    RevIndex,
                    Error,
                >::Err(Error::UnsupportedVariant) || r == Result::<RevIndex, Error>::Err(
                    Error::NotFound,
                ) || r == Result::<RevIndex, Error>::Err(Error::MovedStorage)))
                &&& match r {
                    Ok(idx) => {
                        &&& idx.valid()
                        &&& idx.plain().read_only == read_only
                        &&& idx.plain().collection == index.collection
                        &&& forall|x: u64|
                            #[trigger] idx.plain().hash_to_color.has_hash(x) <==> exists|k: int|
                                0 <= k < index.hash_rows@.len()
                                    && vstd::bytes::spec_u64_from_le_bytes(
                                    (#[trigger] index.hash_rows@[k]).0@,
                                ) == x
                        &&& forall|x: u64|
                            #[trigger] idx.plain().hash_to_color.has_hash(x) ==> exists|k: int|
                                0 <= k < index.hash_rows@.len()
                                    && vstd::bytes::spec_u64_from_le_bytes(
                                    (#[trigger] index.hash_rows@[k]).0@,
                                ) == x && vstd::bytes::spec_u64_from_le_bytes(
                                    index.hash_rows@[k].1@,
                                ) == idx.plain().hash_to_color.map()[x]
                        &&& forall|x: u64|
                            #[trigger] idx.plain().colors.has_color(x) <==> exists|k: int|
                                0 <= k < index.color_rows@.len()
                                    && vstd::bytes::spec_u64_from_le_bytes(
                                    (#[trigger] index.color_rows@[k]).0@,
                                ) == x
                        &&& forall|k: int|
                            0 <= k < index.color_rows@.len() ==> ((
                            #[trigger] index.color_rows@[k]).0@.len() == 8
                                && crate::datasets::decoded_set(index.color_rows@[k].1@) == Some(
                                idx.plain().colors.map()[vstd::bytes::spec_u64_from_le_bytes(
                                    index.color_rows@[k].0@,
                                )],
                            ))
                    },
                    Err(e) => true,
                }
                &&& ((!has_colors_cf && well_named && !((match spec {
                    Some(s) => s is External,
                    None => index.storage_spec is External,
                }) && !storage_accessible) && rows_well_formed(index)) ==> r is Ok)
            }),
    {
        let ghost idx0 = index;
        let meta_name: String = METADATA.to_owned();
        let hashes_name: String = HASHES.to_owned();
        let colors_name: String = COLORS.to_owned();
        if contains_name(&index.cf_names, &colors_name) {
            // The color-table variant cannot be opened read-only, and is
            // otherwise an unimplemented backend.
            if read_only {
                return Err(Error::ReadOnlyViolation);
            }
            return Err(Error::UnsupportedVariant);
        }
        if !contains_name(&index.cf_names, &meta_name) || !contains_name(
            &index.cf_names,
            &hashes_name,
        ) || index.version != DB_VERSION {
            return Err(Error::NotFound);
        }
        let storage_spec = match spec {
            Some(s) => s,
            None => index.storage_spec,
        };
        let external = match &storage_spec {
            StorageSpec::External(_) => true,
            StorageSpec::Internal => false,
        };
        if external && !storage_accessible {
            return Err(Error::MovedStorage);
        }
        let h2c = match parse_hash_rows(&index.hash_rows) {
            Ok(h) => h,
            Err(e) => {
                return Err(e);
            },
        };
        let colors_tbl = match parse_color_rows(&index.color_rows, index.collection.records.len()) {
            Ok(c) => c,
            Err(e) => {
                return Err(e);
            },
        };
        // Every mapped color must be allocated in the color table.
        let mut j: usize = 0;
        while j < h2c.entries.len()
            invariant
                h2c.wf(),
                colors_tbl.wf(),
                j <= h2c.entries@.len(),
                forall|q: int|
                    0 <= q < j ==> colors_tbl.has_color((#[trigger] h2c.entries@[q]).1),
            decreases h2c.entries@.len() - j,
        {
            if !colors_tbl.contains_color(h2c.entries[j].1) {
                proof {
                    if rows_well_formed(idx0) {
                        h2c.lemma_lookup(j as int);
                        let key_j = h2c.entries@[j as int].0;
                        assert(h2c.has_hash(key_j));
                        let kk = choose|kk: int|
                            0 <= kk < idx0.hash_rows@.len() && vstd::bytes::spec_u64_from_le_bytes(
                                (#[trigger] idx0.hash_rows@[kk]).0@,
                            ) == key_j && vstd::bytes::spec_u64_from_le_bytes(
                                idx0.hash_rows@[kk].1@,
                            ) == h2c.map()[key_j];
                        let ll = choose|ll: int|
                            0 <= ll < idx0.color_rows@.len() && vstd::bytes::spec_u64_from_le_bytes(
                                (#[trigger] idx0.color_rows@[ll]).0@,
                            ) == vstd::bytes::spec_u64_from_le_bytes(idx0.hash_rows@[kk].1@);
                        assert(colors_tbl.has_color(h2c.entries@[j as int].1));
                        assert(false);
                    }
                }
                return Err(Error::CorruptEntry);
            }
            j = j + 1;
        }
        proof {
            assert(linked(h2c, colors_tbl)) by {
                assert forall|x: u64| h2c.has_hash(x) implies colors_tbl.has_color(
                    #[trigger] h2c.map()[x],
                ) by {
                    let q = choose|q: int|
                        0 <= q < h2c.entries@.len() && (#[trigger] h2c.entries@[q]).0 == x;
                    h2c.lemma_lookup(q);
                }
            }
            assert(crate::query::bounded_mapping(
                crate::hash_to_color::resolved(h2c, colors_tbl),
                index.collection.records@.len() as int,
            )) by {
                assert forall|h: u64, i: u32|
                    crate::hash_to_color::resolved(h2c, colors_tbl).dom().contains(h)
                        && #[trigger] crate::hash_to_color::resolved(h2c, colors_tbl)[h].contains(
                        i,
                    ) implies 0 <= i < index.collection.records@.len() by {
                    assert(h2c.has_hash(h));
                    assert(colors_tbl.has_color(h2c.map()[h]));
                    assert(colors_tbl.map()[h2c.map()[h]].contains(i));
                }
            }
        }
        Ok(
            RevIndex::Plain(
                disk_revindex::RevIndex {
                    collection: index.collection,
                    hash_to_color: h2c,
                    colors: colors_tbl,
                    read_only,
                    storage_spec,
                    location: index.location,
                },
            ),
        )
    }

    /// The overlap counter for a query sketch.
    pub fn counter_for_query(&self, query: &KmerMinHash) -> (r: SigCounter)
        requires
            self.valid(),
        ensures
            r.counts@.len() == self.plain().collection.records@.len(),
            forall|i: u32|
                0 <= i < self.plain().collection.records@.len() ==> #[trigger] r.counts@[i as int]
                    == crate::query::overlap_count(self.mapping(), query.mins@, i),
            forall|i: int|
                0 <= i < r.counts@.len() ==> #[trigger] r.counts@[i] <= query.mins@.len(),
    {
        match self {
            RevIndex::Plain(d) => d.counter_for_query(query),
        }
    }

    /// The ranked matches for a counter at a threshold: dataset names with
    /// their counts, ordered by count descending, ties broken by ascending
    /// dataset index.
    pub fn matches_from_counter(&self, counter: SigCounter, threshold: usize) -> (r: Vec<
        (String, usize),
    >)
        requires
            self.valid(),
            counter.counts@.len() == self.plain().collection.records@.len(),
            forall|i: int|
                0 <= i < counter.counts@.len() ==> #[trigger] counter.counts@[i] <= usize::MAX,
        ensures
            exists|ord: Seq<(u32, u64)>|
                {
                    &&& #[trigger] disk_revindex::is_ranked(counter.counts@, threshold as u64, ord)
                    &&& r@.len() == ord.len()
                    &&& forall|k: int|
                        0 <= k < ord.len() ==> ((#[trigger] r@[k]).0@
                            == self.plain().collection.records@[ord[k].0 as int].name@ && r@[k].1
                            == ord[k].1)
                },
    {
        match self {
            RevIndex::Plain(d) => d.matches_from_counter(counter, threshold),
        }
    }

    /// One-time precomputation shared by repeated gather calls on one
    /// query; fails exactly when the query does not match the index's
    /// selection parameters.
    pub fn prepare_gather_counters(&self, query: &KmerMinHash) -> (r: Result<
        (SigCounter, crate::colors::Colors, crate::hash_to_color::HashToColor),
        Error,
    >)
        requires
            self.valid(),
        ensures
            r is Err <==> !query.spec_compatible(self.plain().collection.selection),
            match r {
                Ok(p) => {
                    &&& p.2.wf()
                    &&& p.1.wf()
                    &&& linked(p.2, p.1)
                    &&& crate::query::bounded_mapping(
                        crate::hash_to_color::resolved(p.2, p.1),
                        self.plain().collection.records@.len() as int,
                    )
                    &&& forall|x: u64|
                        #[trigger] p.2.has_hash(x) <==> (self.plain().hash_to_color.has_hash(x)
                            && query.mins@.contains(x))
                    &&& forall|x: u64|
                        #[trigger] p.2.has_hash(x) ==> crate::hash_to_color::resolved(p.2, p.1)[x]
                            == self.mapping()[x]
                    &&& p.2.entries@.len() <= query.mins@.len()
                    &&& p.0.counts@.len() == self.plain().collection.records@.len()
                    &&& forall|i: u32|
                        0 <= i < p.0.counts@.len() ==> #[trigger] p.0.counts@[i as int]
                            == crate::query::overlap_count(
                            crate::hash_to_color::resolved(p.2, p.1),
                            crate::query::keys_of(p.2),
                            i,
                        )
                },
                Err(e) => e == Error::ConfigMismatch,
            },
    {
        match self {
            RevIndex::Plain(d) => d.prepare_gather_counters(query),
        }
    }

    /// Greedy containment decomposition of a query against the index.
    pub fn gather(
        &self,
        counter: SigCounter,
        query_colors: crate::colors::Colors,
        hash_to_color: crate::hash_to_color::HashToColor,
        threshold: usize,
        query: &KmerMinHash,
        selection: Option<crate::collection::Selection>,
    ) -> (r: Result<Vec<crate::query::GatherResult>, Error>)
        requires
            self.valid(),
            query_colors.wf(),
            hash_to_color.wf(),
            linked(hash_to_color, query_colors),
            crate::query::bounded_mapping(
                crate::hash_to_color::resolved(hash_to_color, query_colors),
                self.plain().collection.records@.len() as int,
            ),
            counter.counts@.len() == self.plain().collection.records@.len(),
            forall|i: u32|
                0 <= i < counter.counts@.len() ==> #[trigger] counter.counts@[i as int]
                    == crate::query::overlap_count(
                    crate::hash_to_color::resolved(hash_to_color, query_colors),
                    crate::query::keys_of(hash_to_color),
                    i,
                ),
            hash_to_color.entries@.len() <= query.mins@.len(),
            query.mins@.len() * self.plain().collection.selection.scaled <= u64::MAX,
        ensures
            (r is Err <==> (match selection {
                Some(sel) => !query.spec_compatible(sel),
                None => false,
            })),
            match r {
                Ok(res) => {
                    let thr = if threshold as u64 >= 1 {
                        threshold as u64
                    } else {
                        1u64
                    };
                    &&& forall|k: int|
                        0 <= k < res@.len() ==> disk_revindex::round_ok(
                            #[trigger] res@[k],
                            self.plain().collection,
                            query.mins@,
                            self.plain().collection.selection.scaled,
                            thr,
                        )
                    &&& (res@.len() > 0 ==> res@[0].unique_count + res@[0].remaining_count
                        == query.mins@.len())
                    &&& forall|k: int|
                        1 <= k < res@.len() ==> (#[trigger] res@[k]).remaining_count + res@[
                            k
                        ].unique_count == res@[k - 1].remaining_count
                    &&& (res@.len() > 0 ==> crate::query::is_best(
                        counter.counts@,
                        res@[0].dataset_id,
                    ) && res@[0].unique_count == counter.counts@[res@[0].dataset_id as int])
                    &&& (res@.len() == 0 <==> !(exists|i: int|
                        0 <= i < counter.counts@.len() && #[trigger] counter.counts@[i] >= thr))
                    &&& ({
                        let m0 = crate::hash_to_color::resolved(hash_to_color, query_colors);
                        let keys0 = crate::query::keys_of(hash_to_color);
                        let n = counter.counts@.len();
                        &&& forall|k: int|
                            0 <= k < res@.len() ==> (#[trigger] res@[k]).unique_count
                                == crate::query::overlap_count_outside(
                                m0,
                                keys0,
                                res@[k].dataset_id,
                                disk_revindex::done_upto(res@, k),
                            )
                        &&& forall|k: int, l: int|
                            0 <= k < l < res@.len() ==> (#[trigger] res@[k]).dataset_id != (
                            #[trigger] res@[l]).dataset_id
                        &&& forall|j: u32|
                            0 <= j < n ==> #[trigger] crate::query::overlap_count_outside(
                                m0,
                                keys0,
                                j,
                                disk_revindex::done_upto(res@, res@.len() as int),
                            ) < thr
                    })
                },
                Err(e) => e == Error::ConfigMismatch,
            },
    {
        match self {
            RevIndex::Plain(d) => d.gather(
                counter,
                query_colors,
                hash_to_color,
                threshold,
                query,
                selection,
            ),
        }
    }

    /// Extends the index with the new datasets of a grown collection.
    pub fn update(self, collection: CollectionSet) -> (r: Result<RevIndex, Error>)
        requires
            self.valid(),
            self.plain().is_exact(),
            disk_revindex::family_table(self.plain().colors, self.plain().collection),
            collection.wf(),
            collection.records@.len() <= u32::MAX,
        ensures
            match r {
                Ok(idx) => {
                    &&& idx.valid()
                    &&& idx.plain().is_exact()
                    &&& idx.plain().collection == collection
                    &&& disk_revindex::extends_collection(collection, self.plain().collection)
                },
                Err(e) => {
                    &&& (e == Error::ReadOnlyViolation || e == Error::ConfigMismatch || e
                        == Error::ColorCollision)
                    &&& (e == Error::ReadOnlyViolation <==> self.plain().read_only)
                    &&& (e == Error::ConfigMismatch <==> (!self.plain().read_only
                        && !disk_revindex::extends_collection(
                        collection,
                        self.plain().collection,
                    )))
                    &&& (e == Error::ColorCollision ==> !disk_revindex::collision_free(collection))
                },
            },
            (!self.plain().read_only && disk_revindex::extends_collection(
                collection,
                self.plain().collection,
            ) && disk_revindex::collision_free(collection)) ==> r is Ok,
    {
        match self {
            RevIndex::Plain(d) => match d.update(collection) {
                Ok(d2) => Ok(RevIndex::Plain(d2)),
                Err(e) => Err(e),
            },
        }
    }

    /// Maintenance delegated to the store engine.
    pub fn compact(&self) {
        match self {
            RevIndex::Plain(d) => d.compact(),
        }
    }

    /// Durability delegated to the store engine.
    pub fn flush(&self) -> (r: Result<(), Error>)
        ensures
            r is Ok,
    {
        match self {
            RevIndex::Plain(d) => d.flush(),
        }
    }

    /// Rewrites this index's contents into another backend instance; the
    /// result answers queries exactly as the source.
    pub fn convert(&self, output_db: &mut RevIndex) -> (r: Result<(), Error>)
        requires
            self.valid(),
        ensures
            r is Ok,
            final(output_db).valid(),
            final(output_db).mapping() == self.mapping(),
            disk_revindex::same_collection(
                final(output_db).plain().collection,
                self.plain().collection,
            ),
    {
        match self {
            RevIndex::Plain(d) => match output_db {
                RevIndex::Plain(o) => d.convert(o),
            },
        }
    }

    /// Scans the color partition for statistics; deep unless `quick`.
    pub fn check(&self, quick: bool) -> (r: Result<DbStats, Error>)
        requires
            self.valid(),
            self.plain().colors.entries@.len() * 8 <= usize::MAX,
        ensures
            r is Ok,
            match r {
                Ok(st) => {
                    &&& st.stat_total_keys == self.plain().colors.entries@.len()
                    &&& (!quick ==> st.stat_total_datasets == disk_revindex::colors_union(
                        self.plain().colors.entries@,
                        self.plain().colors.entries@.len() as int,
                    ).len())
                },
                Err(e) => false,
            },
    {
        match self {
            RevIndex::Plain(d) => d.check(quick),
        }
    }

    /// Embeds the referenced dataset storage, making the index
    /// self-contained and relocatable.
    pub fn internalize_storage(&mut self) -> (r: Result<(), Error>)
        requires
            old(self).valid(),
        ensures
            ({
                let before = *old(self);
                let after = *final(self);
                &&& after.valid()
                &&& (r is Err <==> before.plain().read_only)
                &&& (r is Ok ==> (after.plain().storage_spec == StorageSpec::Internal
                    && after.mapping() == before.mapping() && after.plain().collection
                    == before.plain().collection))
                &&& (r is Err ==> (r == Result::<(), Error>::Err(Error::ReadOnlyViolation) && after
                    == before))
            }),
    {
        match self {
            RevIndex::Plain(d) => d.internalize_storage(),
        }
    }

    /// The loaded dataset collection snapshot.
    pub fn collection(&self) -> (r: &CollectionSet)
        ensures
            r == self.plain().collection,
    {
        match self {
            RevIndex::Plain(d) => &d.collection,
        }
    }

    /// The partition rows to persist: hash rows and color rows.
    pub fn dump_rows(&self) -> (r: (Vec<(Vec<u8>, Vec<u8>)>, Vec<(Vec<u8>, Vec<u8>)>))
        requires
            self.valid(),
        ensures
            r.0@.len() == self.plain().hash_to_color.entries@.len(),
            forall|k: int|
                0 <= k < r.0@.len() ==> ((#[trigger] r.0@[k]).0@
                    == vstd::bytes::spec_u64_to_le_bytes(
                    self.plain().hash_to_color.entries@[k].0,
                ) && r.0@[k].1@ == vstd::bytes::spec_u64_to_le_bytes(
                    self.plain().hash_to_color.entries@[k].1,
                )),
            r.1@.len() == self.plain().colors.entries@.len(),
            forall|k: int|
                0 <= k < r.1@.len() ==> ((#[trigger] r.1@[k]).0@
                    == vstd::bytes::spec_u64_to_le_bytes(self.plain().colors.entries@[k].0)
                    && crate::datasets::decoded_set(r.1@[k].1@) == Some(
                    self.plain().colors.entries@[k].1.set(),
                )),
    {
        match self {
            RevIndex::Plain(d) => (d.hash_rows(), d.color_rows()),
        }
    }
}

} // verus!
