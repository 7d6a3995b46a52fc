//! Trusted boundary around `roaring::RoaringBitmap`, the compressed bitmap
//! that backs the `Many` variant of the compact index set.
//!
//! Every contract here states only what the bitmap's own source and
//! documentation show. A bitmap is modelled by `rb_seq`, the ascending
//! sequence of the values it holds.

use crate::seqs::ascending;
use roaring::RoaringBitmap;
use vstd::prelude::*;

verus! {

#[verifier::external_type_specification]
#[verifier::external_body]
pub struct ExRoaringBitmap(RoaringBitmap);

/// The ascending sequence of values held by a roaring bitmap.
pub uninterp spec fn rb_seq(b: RoaringBitmap) -> Seq<u32>;

/// What `RoaringBitmap::deserialize_from` decodes from a byte string: the
/// ascending value sequence, or `None` where the bytes are not a valid
/// serialized bitmap. The function reads nothing but the bytes, so its
/// outcome is a function of them alone.
pub uninterp spec fn rb_decoded(bytes: Seq<u8>) -> Option<Seq<u32>>;

/// Relies on `RoaringBitmap::from_sorted_iter`: building from a strictly
/// ascending iterator succeeds and yields a bitmap holding exactly those
/// values.
#[verifier::external_body]
pub fn rb_build(values: &Vec<u32>) -> (r: RoaringBitmap)
    requires
        ascending(values@),
    ensures
        rb_seq(r) == values@,
{
    RoaringBitmap::from_sorted_iter(values.iter().copied()).unwrap()
}

/// Relies on `RoaringBitmap::iter`, which guarantees values are yielded in
/// ascending order.
#[verifier::external_body]
pub fn rb_members(b: &RoaringBitmap) -> (r: Vec<u32>)
    ensures
        r@ == rb_seq(*b),
{
    b.iter().collect()
}

/// Relies on `RoaringBitmap::contains`.
#[verifier::external_body]
pub fn rb_contains(b: &RoaringBitmap, value: u32) -> (r: bool)
    ensures
        r == rb_seq(*b).contains(value),
{
    b.contains(value)
}

/// Relies on `RoaringBitmap::len`, the number of distinct values stored.
#[verifier::external_body]
pub fn rb_len(b: &RoaringBitmap) -> (r: u64)
    ensures
        r == rb_seq(*b).len(),
{
    b.len()
}

/// Relies on `RoaringBitmap::insert`: adds one value to the set.
#[verifier::external_body]
pub fn rb_insert(b: &mut RoaringBitmap, value: u32)
    ensures
        ascending(rb_seq(*final(b))),
        rb_seq(*final(b)).to_set() == rb_seq(*old(b)).to_set().insert(value),
{
    b.insert(value);
}

/// Relies on `BitOrAssign<&RoaringBitmap>`: the union of two sets.
#[verifier::external_body]
pub fn rb_union_with(b: &mut RoaringBitmap, other: &RoaringBitmap)
    ensures
        ascending(rb_seq(*final(b))),
        rb_seq(*final(b)).to_set() == rb_seq(*old(b)).to_set().union(rb_seq(*other).to_set()),
{
    *b |= other;
}

/// Relies on `RoaringBitmap::serialize_into` writing the standard roaring
/// on-disk format: deserializing the output restores the same values, and a
/// bitmap with at least one container serializes to a cookie, a container
/// count, per-container headers and data, more than eight bytes in all.
#[verifier::external_body]
pub fn rb_serialize(b: &RoaringBitmap) -> (r: Vec<u8>)
    requires
        rb_seq(*b).len() >= 1,
    ensures
        rb_decoded(r@) == Some(rb_seq(*b)),
        r@.len() > 8,
{
    let mut buf = vec![];
    b.serialize_into(&mut buf).unwrap();
    buf
}

/// Relies on `RoaringBitmap::deserialize_from`, which validates the input
/// bytes and errs on malformed data.
#[verifier::external_body]
pub fn rb_deserialize(bytes: &[u8]) -> (r: Option<RoaringBitmap>)
    ensures
        match r {
            Some(b) => rb_decoded(bytes@) == Some(rb_seq(b)) && ascending(rb_seq(b)),
            None => rb_decoded(bytes@) is None,
        },
{
    RoaringBitmap::deserialize_from(bytes).ok()
}

/// Relies on `RoaringBitmap::clone` preserving the stored values.
pub assume_specification[ <RoaringBitmap as Clone>::clone ](b: &RoaringBitmap) -> (r:
    RoaringBitmap)
    ensures
        rb_seq(r) == rb_seq(*b),
;

} // verus!
