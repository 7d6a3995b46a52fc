//! The compact index set: an economical encoding of a set of dataset
//! indices, with a self-describing serialized form.
//!
//! The serialized form is discriminated by byte length alone: one byte is
//! the `Empty` sentinel, eight bytes are a single index (little-endian,
//! zero-padded), and anything else is a compressed-bitmap encoding of two
//! or more indices.

use crate::bitmap::{
    rb_build, rb_contains, rb_decoded, rb_deserialize, rb_insert, rb_len, rb_members,
    rb_seq, rb_serialize, rb_union_with,
};
use crate::seqs::{ascending, lemma_ascending_set_len};
use crate::Idx;
use roaring::RoaringBitmap;
use vstd::bytes::{lemma_auto_spec_u32_to_from_le_bytes, spec_u32_from_le_bytes, u32_from_le_bytes, u32_to_le_bytes};
use vstd::prelude::*;

verus! {

/// The byte written as the `Empty` sentinel.
pub const EMPTY_SENTINEL: u8 = 42;

/// A set of dataset indices, stored in the smallest of three shapes.
pub enum Datasets {
    Empty,
    Unique(Idx),
    Many(RoaringBitmap),
}

impl Datasets {
    /// The member set this value denotes.
    pub open spec fn set(self) -> Set<u32> {
        match self {
            Datasets::Empty => Set::empty(),
            Datasets::Unique(v) => Set::empty().insert(v),
            Datasets::Many(b) => rb_seq(b).to_set(),
        }
    }

    /// Well-formed: a `Many` bitmap lists its members in strictly ascending
    /// order.
    pub open spec fn wf(self) -> bool {
        match self {
            Datasets::Many(b) => ascending(rb_seq(b)),
            _ => true,
        }
    }

    /// Canonical: additionally, `Many` is only used for two or more
    /// members, so that each member set has exactly one spelling.
    pub open spec fn canonical(self) -> bool {
        self.wf() && match self {
            Datasets::Many(b) => rb_seq(b).len() >= 2,
            _ => true,
        }
    }

    /// Builds the canonical value for a sorted, deduplicated slice of
    /// indices.
    pub fn new(vals: &Vec<u32>) -> (r: Datasets)
        requires
            ascending(vals@),
        ensures
            r.canonical(),
            r.set() == vals@.to_set(),
    {
        if vals.len() == 0 {
            proof {
                assert(vals@.to_set() =~= Set::<u32>::empty());
            }
            Datasets::Empty
        } else if vals.len() == 1 {
            proof {
                assert forall|x: u32| vals@.to_set().contains(x)
                    implies Set::empty().insert(vals@[0]).contains(x) by {
                    let k = choose|k: int| 0 <= k < vals@.len() && vals@[k] == x;
                    assert(k == 0);
                }
                assert(vals@.contains(vals@[0]));
                assert(vals@.to_set() =~= Set::empty().insert(vals@[0]));
            }
            Datasets::Unique(vals[0])
        } else {
            let b = rb_build(vals);
            Datasets::Many(b)
        }
    }

    /// The number of members, as an unbounded count.
    pub fn len64(&self) -> (r: u64)
        requires
            self.wf(),
        ensures
            r == self.set().len(),
    {
        match self {
            Datasets::Empty => {
                proof {
                    assert(self.set() =~= Set::<u32>::empty());
                }
                0
            },
            Datasets::Unique(_) => 1,
            Datasets::Many(b) => {
                proof {
                    lemma_ascending_set_len(rb_seq(*b));
                }
                rb_len(b)
            },
        }
    }

    /// The number of members. The count of a set of 32-bit indices must fit
    /// the machine's word for this accessor to apply.
    pub fn len(&self) -> (r: usize)
        requires
            self.wf(),
            self.set().len() <= usize::MAX,
        ensures
            r == self.set().len(),
    {
        let n = self.len64();
        n as usize
    }

    /// Whether `value` is a member.
    pub fn contains(&self, value: &Idx) -> (r: bool)
        requires
            self.wf(),
        ensures
            r == self.set().contains(*value),
    {
        match self {
            Datasets::Empty => false,
            Datasets::Unique(v) => *v == *value,
            Datasets::Many(b) => {
                let r = rb_contains(b, *value);
                proof {
                    if rb_seq(*b).contains(*value) {
                        assert(rb_seq(*b).to_set().contains(*value));
                    }
                    if rb_seq(*b).to_set().contains(*value) {
                        assert(rb_seq(*b).contains(*value));
                    }
                }
                r
            },
        }
    }

    /// The ascending sequence of members.
    pub fn members(&self) -> (r: Vec<u32>)
        requires
            self.wf(),
        ensures
            ascending(r@),
            r@.to_set() == self.set(),
    {
        match self {
            Datasets::Empty => {
                let r: Vec<u32> = Vec::new();
                proof {
                    assert(r@.to_set() =~= self.set());
                }
                r
            },
            Datasets::Unique(v) => {
                let mut r: Vec<u32> = Vec::new();
                r.push(*v);
                proof {
                    assert(r@.contains(*v)) by {
                        assert(r@[0] == *v);
                    }
                    assert forall|x: u32| r@.to_set().contains(x)
                        implies self.set().contains(x) by {
                        let k = choose|k: int| 0 <= k < r@.len() && r@[k] == x;
                        assert(k == 0);
                    }
                    assert(r@.to_set() =~= self.set());
                }
                r
            },
            Datasets::Many(b) => rb_members(b),
        }
    }

    /// The union of two member sets, in canonical shape when both inputs
    /// are canonical. Membership promotes `Empty` to `Unique` to `Many` as
    /// it grows.
    pub fn union(self, other: Datasets) -> (r: Datasets)
        requires
            self.wf(),
            other.wf(),
        ensures
            r.wf(),
            r.set() == self.set().union(other.set()),
            self.canonical() && other.canonical() ==> r.canonical(),
    {
        let ghost goal = self.set().union(other.set());
        match self {
            Datasets::Empty => {
                proof {
                    assert(other.set() =~= goal);
                }
                other
            },
            Datasets::Unique(v) => match other {
                Datasets::Empty => {
                    proof {
                        assert(Datasets::Unique(v).set() =~= goal);
                    }
                    Datasets::Unique(v)
                },
                Datasets::Unique(o) => {
                    if v == o {
                        proof {
                            assert(Datasets::Unique(v).set() =~= goal);
                        }
                        Datasets::Unique(v)
                    } else {
                        let lo = if v < o { v } else { o };
                        let hi = if v < o { o } else { v };
                        let mut vals: Vec<u32> = Vec::new();
                        vals.push(lo);
                        vals.push(hi);
                        let b = rb_build(&vals);
                        proof {
                            assert(vals@.contains(lo)) by {
                                assert(vals@[0] == lo);
                            }
                            assert(vals@.contains(hi)) by {
                                assert(vals@[1] == hi);
                            }
                            assert forall|x: u32| vals@.to_set().contains(x)
                                implies goal.contains(x) by {
                                let k = choose|k: int| 0 <= k < vals@.len() && vals@[k] == x;
                            }
                            assert(rb_seq(b).to_set() =~= goal);
                        }
                        Datasets::Many(b)
                    }
                },
                Datasets::Many(mut o) => {
                    proof {
                        lemma_ascending_set_len(rb_seq(o));
                    }
                    rb_insert(&mut o, v);
                    proof {
                        lemma_ascending_set_len(rb_seq(o));
                        assert(rb_seq(o).to_set() =~= goal);
                    }
                    Datasets::Many(o)
                },
            },
            Datasets::Many(mut b) => match other {
                Datasets::Empty => {
                    proof {
                        assert(rb_seq(b).to_set() =~= goal);
                    }
                    Datasets::Many(b)
                },
                Datasets::Unique(o) => {
                    proof {
                        lemma_ascending_set_len(rb_seq(b));
                    }
                    rb_insert(&mut b, o);
                    proof {
                        lemma_ascending_set_len(rb_seq(b));
                        assert(rb_seq(b).to_set() =~= goal);
                    }
                    Datasets::Many(b)
                },
                Datasets::Many(o) => {
                    proof {
                        lemma_ascending_set_len(rb_seq(b));
                        vstd::set_lib::lemma_len_subset(
                            rb_seq(b).to_set(),
                            rb_seq(b).to_set().union(rb_seq(o).to_set()),
                        );
                    }
                    rb_union_with(&mut b, &o);
                    proof {
                        lemma_ascending_set_len(rb_seq(b));
                        assert(rb_seq(b).to_set() =~= goal);
                    }
                    Datasets::Many(b)
                },
            },
        }
    }

    /// Grows the member set by each listed index, promoting the shape from
    /// `Empty` through `Unique` to `Many` as membership grows.
    pub fn extend(self, values: &Vec<u32>) -> (r: Datasets)
        requires
            self.wf(),
        ensures
            r.wf(),
            r.set() == self.set().union(values@.to_set()),
            self.canonical() ==> r.canonical(),
    {
        let mut r = self;
        let mut k: usize = 0;
        proof {
            assert(values@.take(0).to_set() =~= Set::<u32>::empty());
            assert(r.set() =~= self.set().union(values@.take(0).to_set()));
        }
        while k < values.len()
            invariant
                r.wf(),
                k <= values@.len(),
                r.set() == self.set().union(values@.take(k as int).to_set()),
                self.canonical() ==> r.canonical(),
            decreases values@.len() - k,
        {
            let v = values[k];
            r = r.union(Datasets::Unique(v));
            proof {
                crate::seqs::lemma_take_to_set_push(values@, k as int);
                assert(r.set() =~= self.set().union(values@.take(k as int + 1).to_set()));
            }
            k = k + 1;
        }
        proof {
            assert(values@.take(values@.len() as int) =~= values@);
        }
        r
    }

    /// The serialized form: one byte for `Empty`, eight bytes for `Unique`
    /// (the index little-endian, zero-padded), and the compressed-bitmap
    /// encoding, never one or eight bytes long, for `Many`.
    pub fn as_bytes(&self) -> (r: Option<Vec<u8>>)
        requires
            self.canonical(),
        ensures
            match r {
                Some(bytes) => decoded_set(bytes@) == Some(self.set()) && (self is Empty
                    <==> bytes@.len() == 1) && (self is Unique <==> bytes@.len() == 8) && (
                self is Many ==> bytes@.len() > 8) && (self is Empty ==> bytes@ == seq![
                    EMPTY_SENTINEL,
                ]) && (self matches Datasets::Unique(v) ==> bytes@
                    == vstd::bytes::spec_u32_to_le_bytes(*v) + seq![0u8, 0u8, 0u8, 0u8]),
                None => false,
            },
    {
        match self {
            Datasets::Empty => {
                let mut buf: Vec<u8> = Vec::new();
                buf.push(EMPTY_SENTINEL);
                proof {
                    assert(decoded_set(buf@) =~~= Some(Set::<u32>::empty()));
                    assert(self.set() =~= Set::<u32>::empty());
                    assert(buf@ =~= seq![EMPTY_SENTINEL]);
                }
                Some(buf)
            },
            Datasets::Unique(v) => {
                let mut buf = u32_to_le_bytes(*v);
                buf.push(0);
                buf.push(0);
                buf.push(0);
                buf.push(0);
                proof {
                    lemma_auto_spec_u32_to_from_le_bytes();
                    assert(buf@.take(4) =~= vstd::bytes::spec_u32_to_le_bytes(*v));
                    assert(decoded_set(buf@) =~~= Some(self.set()));
                    assert(buf@ =~= vstd::bytes::spec_u32_to_le_bytes(*v) + seq![
                        0u8,
                        0u8,
                        0u8,
                        0u8,
                    ]);
                }
                Some(buf)
            },
            Datasets::Many(b) => {
                let buf = rb_serialize(b);
                Some(buf)
            },
        }
    }

    /// Decodes a serialized compact index set; `None` on bytes that no
    /// value serializes to.
    pub fn from_slice(slice: &[u8]) -> (r: Option<Datasets>)
        ensures
            match r {
                Some(d) => d.wf() && decoded_set(slice@) == Some(d.set()) && (slice@.len() == 1
                    ==> d is Empty) && (slice@.len() == 8 ==> d is Unique) && (slice@.len() != 1
                    && slice@.len() != 8 ==> d is Many),
                None => decoded_set(slice@) is None,
            },
    {
        if slice.len() == 8 {
            let v = u32_from_le_bytes(vstd::slice::slice_subrange(slice, 0, 4));
            Some(Datasets::Unique(v))
        } else if slice.len() == 1 {
            Some(Datasets::Empty)
        } else {
            match rb_deserialize(slice) {
                Some(b) => Some(Datasets::Many(b)),
                None => None,
            }
        }
    }
}

/// The member set a serialized compact index set denotes, discriminated by
/// byte length; `None` where the bytes decode as nothing.
pub open spec fn decoded_set(bytes: Seq<u8>) -> Option<Set<u32>> {
    if bytes.len() == 1 {
        Some(Set::empty())
    } else if bytes.len() == 8 {
        Some(Set::empty().insert(spec_u32_from_le_bytes(bytes.take(4))))
    } else {
        match rb_decoded(bytes) {
            Some(s) => Some(s.to_set()),
            None => None,
        }
    }
}

impl Clone for Datasets {
    /// A deep copy denoting the same member set, in the same shape.
    fn clone(&self) -> (r: Self)
        ensures
            r.set() == self.set(),
            self.wf() ==> r.wf(),
            self.canonical() ==> r.canonical(),
            r is Empty <==> self is Empty,
            r is Unique <==> self is Unique,
            r is Many <==> self is Many,
    {
        match self {
            Datasets::Empty => Datasets::Empty,
            Datasets::Unique(v) => Datasets::Unique(*v),
            Datasets::Many(b) => Datasets::Many(b.clone()),
        }
    }
}

impl Default for Datasets {
    /// The empty member set.
    fn default() -> (r: Self)
        ensures
            r is Empty,
            r.set() == Set::<u32>::empty(),
            r.canonical(),
    {
        Datasets::Empty
    }
}

} // verus!
