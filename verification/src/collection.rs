//! The collaborator interfaces the index consumes, modelled as plain
//! values: a scaled MinHash sketch (its ascending hash set and its
//! selection parameters), a signature holding sketches, and a dataset
//! collection snapshot with per-dataset names and storage locations.

use crate::seqs::ascending64;
use crate::Error;
use vstd::prelude::*;

verus! {

/// The selection parameters a query or collection is held to.
#[derive(Clone, Copy, PartialEq, Eq, Structural, Debug)]
pub struct Selection {
    pub ksize: u32,
    pub scaled: u64,
}

/// A scaled MinHash sketch: the ascending set of hash values it retained,
/// with its k-mer size and scaling factor.
pub struct KmerMinHash {
    pub ksize: u32,
    pub scaled: u64,
    pub mins: Vec<u64>,
}

impl KmerMinHash {
    /// Hashes are strictly ascending (a set) and the scale is positive.
    pub open spec fn wf(self) -> bool {
        ascending64(self.mins@) && self.scaled >= 1
    }

    /// Whether this sketch matches the selection parameters.
    pub open spec fn spec_compatible(self, sel: Selection) -> bool {
        self.ksize == sel.ksize && self.scaled == sel.scaled
    }

    /// Whether this sketch matches the selection parameters.
    pub fn compatible(&self, sel: &Selection) -> (r: bool)
        ensures
            r == self.spec_compatible(*sel),
    {
        self.ksize == sel.ksize && self.scaled == sel.scaled
    }

    /// The number of hashes in the sketch.
    pub fn size(&self) -> (r: usize)
        ensures
            r == self.mins@.len(),
    {
        self.mins.len()
    }
}

impl Clone for KmerMinHash {
    /// A copy with the same parameters and hash set.
    fn clone(&self) -> (r: Self)
        ensures
            r.ksize == self.ksize,
            r.scaled == self.scaled,
            r.mins@ == self.mins@,
    {
        KmerMinHash { ksize: self.ksize, scaled: self.scaled, mins: self.mins.clone() }
    }
}

/// One sketch of a signature. Only MinHash sketches are indexable; a
/// cardinality summary carries no hash set to index.
pub enum Sketch {
    MinHash(KmerMinHash),
    HyperLogLog,
}

/// A signature: the sketches computed for one sequence collection entry.
pub struct Signature {
    pub sketches: Vec<Sketch>,
}

/// Whether a sketch is a MinHash sketch matching the selection.
pub open spec fn sketch_matches(sk: Sketch, sel: Selection) -> bool {
    match sk {
        Sketch::MinHash(mh) => mh.spec_compatible(sel),
        Sketch::HyperLogLog => false,
    }
}

/// Extracts from a signature the first MinHash sketch that matches the
/// selection, if any: the sketch a query against an index built under
/// that selection is made from.
pub fn prepare_query(search_sig: Signature, selection: &Selection) -> (r: Option<KmerMinHash>)
    ensures
        match r {
            Some(mh) => exists|i: int|
                {
                    &&& 0 <= i < search_sig.sketches@.len()
                    &&& #[trigger] search_sig.sketches@[i] == Sketch::MinHash(mh)
                    &&& sketch_matches(search_sig.sketches@[i], *selection)
                    &&& forall|j: int|
                        0 <= j < i ==> !sketch_matches(#[trigger] search_sig.sketches@[j], *selection)
                },
            None => forall|i: int|
                0 <= i < search_sig.sketches@.len() ==> !sketch_matches(
                    #[trigger] search_sig.sketches@[i],
                    *selection,
                ),
        },
{
    let mut found: Option<usize> = None;
    let mut k: usize = 0;
    while k < search_sig.sketches.len() && found.is_none()
        invariant
            k <= search_sig.sketches@.len(),
            forall|j: int|
                0 <= j < k ==> !sketch_matches(#[trigger] search_sig.sketches@[j], *selection),
            match found {
                Some(i) => i == k && k < search_sig.sketches@.len() && sketch_matches(
                    search_sig.sketches@[i as int],
                    *selection,
                ),
                None => true,
            },
        decreases
                search_sig.sketches@.len() - k,
                (if found is None {
                    1int
                } else {
                    0int
                }),
    {
        let matches_here = match &search_sig.sketches[k] {
            Sketch::MinHash(mh) => mh.compatible(selection),
            Sketch::HyperLogLog => false,
        };
        if matches_here {
            found = Some(k);
        } else {
            k = k + 1;
        }
    }
    match found {
        Some(i) => {
            let mut sig = search_sig;
            let sk = sig.sketches.swap_remove(i);
            match sk {
                Sketch::MinHash(mh) => Some(mh),
                Sketch::HyperLogLog => {
                    proof {
                        assert(false);
                    }
                    None
                },
            }
        },
        None => None,
    }
}

/// One loaded dataset: its display name, the location of its stored
/// bytes, and its sketch under the collection's selection.
pub struct Record {
    pub name: String,
    pub storage_location: String,
    pub sketch: KmerMinHash,
}

/// A dataset collection snapshot, checked against one selection: every
/// record's sketch is well-formed and matches the selection. Dataset
/// indices are the positions in `records`, assigned at load time and
/// stable for the index's lifetime.
pub struct CollectionSet {
    pub selection: Selection,
    pub storage: crate::StorageSpec,
    pub records: Vec<Record>,
}

impl CollectionSet {
    /// Every sketch is well-formed and matches the common selection.
    pub open spec fn wf(self) -> bool {
        forall|i: int|
            0 <= i < self.records@.len() ==> ((#[trigger] self.records@[i]).sketch.wf()
                && self.records@[i].sketch.spec_compatible(self.selection))
    }

    /// Checks a record list against a selection; a record whose sketch
    /// does not match is a configuration mismatch.
    pub fn from_records(
        selection: Selection,
        storage: crate::StorageSpec,
        records: Vec<Record>,
    ) -> (r: Result<CollectionSet, Error>)
        requires
            forall|i: int| 0 <= i < records@.len() ==> (#[trigger] records@[i]).sketch.wf(),
        ensures
            match r {
                Ok(c) => {
                    &&& c.wf()
                    &&& c.selection == selection
                    &&& c.storage == storage
                    &&& c.records@ == records@
                    &&& forall|i: int|
                        0 <= i < records@.len() ==> (#[trigger] records@[i]).sketch.spec_compatible(
                            selection,
                        )
                },
                Err(e) => {
                    &&& e == Error::ConfigMismatch
                    &&& exists|i: int|
                        0 <= i < records@.len() && !(#[trigger] records@[i]).sketch.spec_compatible(
                            selection,
                        )
                },
            },
    {
        let mut k: usize = 0;
        while k < records.len()
            invariant
                k <= records@.len(),
                forall|i: int|
                    0 <= i < k ==> (#[trigger] records@[i]).sketch.spec_compatible(selection),
            decreases records@.len() - k,
        {
            if !records[k].sketch.compatible(&selection) {
                return Err(Error::ConfigMismatch);
            }
            k = k + 1;
        }
        Ok(CollectionSet { selection, storage, records })
    }

    /// The number of datasets in the snapshot.
    pub fn len(&self) -> (r: usize)
        ensures
            r == self.records@.len(),
    {
        self.records.len()
    }
}

} // verus!
