//! A reverse index over scaled MinHash sketches.
//!
//! The index maps sketch hash values to the sets of reference datasets that
//! contain them, and uses that mapping to answer ranked containment search
//! and greedy multi-reference decomposition ("gather") queries.

pub mod bitmap;
pub mod collection;
pub mod colors;
pub mod datasets;
pub mod disk_revindex;
pub mod hash_to_color;
pub mod laws;
pub mod query;
pub mod revindex;
pub mod seqs;
pub mod stats;

pub use crate::collection::prepare_query;
pub use crate::datasets::Datasets;
pub use crate::hash_to_color::HashToColor;
pub use crate::query::{GatherResult, SigCounter};
pub use crate::revindex::RevIndex;
pub use crate::stats::DbStats;

use vstd::prelude::*;

verus! {

/// Dense, zero-based identifier of one dataset within a collection snapshot.
pub type Idx = u32;

/// Deterministic identifier computed from the content of a set of dataset
/// indices; two equal sets always yield the same color.
pub type Color = u64;

/// A raw sketch hash value.
pub type HashIntoType = u64;

/// Where referenced dataset bytes live: an external archive named by a
/// location string, or embedded in the index itself.
pub enum StorageSpec {
    External(String),
    Internal,
}

impl Clone for StorageSpec {
    /// A copy naming the same location.
    fn clone(&self) -> (r: Self)
        ensures
            r is Internal <==> self is Internal,
            self matches StorageSpec::External(s) ==> (r matches StorageSpec::External(t)
                && t@ == s@),
    {
        match self {
            StorageSpec::External(s) => StorageSpec::External(s.clone()),
            StorageSpec::Internal => StorageSpec::Internal,
        }
    }
}

/// The error taxonomy of the library. Every failure propagates to the caller
/// with a distinguishable kind.
#[derive(Clone, Copy, PartialEq, Eq, Structural, Debug)]
pub enum Error {
    /// Query selection incompatible with the indexed sketch parameters.
    ConfigMismatch,
    /// No valid index at the given location.
    NotFound,
    /// Mutating call on a read-only handle, or a read-only open of the
    /// color-table variant.
    ReadOnlyViolation,
    /// The requested backend variant is not implemented.
    UnsupportedVariant,
    /// A deep check decoded an invalid value.
    CorruptEntry,
    /// Referenced external dataset storage is unresolvable without an
    /// explicit override.
    MovedStorage,
    /// Two distinct index sets derived the same color identifier.
    ColorCollision,
}

} // verus!
