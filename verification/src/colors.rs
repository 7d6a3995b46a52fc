//! Canonical color allocation and merge algebra over compact index sets.
//!
//! A color is derived from the content of a member set alone — here by
//! folding an FNV-1a hash over the little-endian bytes of the ascending
//! member list, with the hash of the empty input as the fixed sentinel for
//! the empty set. Equal sets therefore always yield the same color, in any
//! table and any process; the table detects the (unlikely) case of two
//! distinct sets deriving the same color and reports it as an error rather
//! than overwriting either set.

use crate::datasets::Datasets;
use crate::seqs::{ascending, lemma_ascending_unique};
use crate::Error;
use vstd::prelude::*;

verus! {

/// FNV-1a 64-bit offset basis; also the color of the empty member set.
pub const FNV_BASIS: u64 = 0xcbf2_9ce4_8422_2325;

/// FNV-1a 64-bit prime.
pub const FNV_PRIME: u64 = 0x0000_0100_0000_01b3;

/// One FNV-1a step over a single byte.
pub open spec fn fnv_byte(h: u64, b: u8) -> u64 {
    vstd::wrapping::u64_specs::wrapping_mul(h ^ (b as u64), FNV_PRIME)
}

/// Four FNV-1a steps over the little-endian bytes of one index.
pub open spec fn fnv_u32(h: u64, v: u32) -> u64 {
    fnv_byte(
        fnv_byte(
            fnv_byte(fnv_byte(h, (v & 0xff) as u8), ((v >> 8) & 0xff) as u8),
            ((v >> 16) & 0xff) as u8,
        ),
        ((v >> 24) & 0xff) as u8,
    )
}

/// Folds the hash over a member sequence, front to back.
pub open spec fn color_fold(h: u64, s: Seq<u32>) -> u64
    decreases s.len(),
{
    if s.len() == 0 {
        h
    } else {
        color_fold(fnv_u32(h, s[0]), s.drop_first())
    }
}

/// The color of a member sequence.
pub open spec fn color_of_seq(s: Seq<u32>) -> u64 {
    color_fold(FNV_BASIS, s)
}

/// The one ascending spelling of a finite member set.
pub open spec fn member_seq(s: Set<u32>) -> Seq<u32> {
    choose|q: Seq<u32>| ascending(q) && q.to_set() == s
}

/// The color of a member set: the color of its ascending spelling.
pub open spec fn color_of_set(s: Set<u32>) -> u64 {
    color_of_seq(member_seq(s))
}

/// The ascending spelling of the member set of an ascending sequence is
/// that sequence itself.
pub proof fn lemma_member_seq_of_ascending(q: Seq<u32>)
    requires
        ascending(q),
    ensures
        member_seq(q.to_set()) == q,
        color_of_set(q.to_set()) == color_of_seq(q),
{
    let s = q.to_set();
    assert(ascending(q) && q.to_set() == s);
    let q2 = member_seq(s);
    assert(ascending(q2) && q2.to_set() == s);
    lemma_ascending_unique(q2, q);
}

/// One exec FNV-1a step over the four little-endian bytes of one index.
fn fnv_u32_exec(h: u64, v: u32) -> (r: u64)
    ensures
        r == fnv_u32(h, v),
{
    proof {
        assert(v & 0xff < 256 && (v >> 8) & 0xff < 256 && (v >> 16) & 0xff < 256 && (v >> 24)
            & 0xff < 256) by (bit_vector);
    }
    let b0 = (v & 0xff) as u8;
    let b1 = ((v >> 8) & 0xff) as u8;
    let b2 = ((v >> 16) & 0xff) as u8;
    let b3 = ((v >> 24) & 0xff) as u8;
    let h0 = (h ^ (b0 as u64)).wrapping_mul(FNV_PRIME);
    let h1 = (h0 ^ (b1 as u64)).wrapping_mul(FNV_PRIME);
    let h2 = (h1 ^ (b2 as u64)).wrapping_mul(FNV_PRIME);
    let h3 = (h2 ^ (b3 as u64)).wrapping_mul(FNV_PRIME);
    h3
}

impl Datasets {
    /// The color derived from this member set. The empty set gets the
    /// fixed sentinel color, the hash of the empty input.
    pub fn color_hash(&self) -> (r: u64)
        requires
            self.wf(),
        ensures
            r == color_of_set(self.set()),
    {
        let ms = self.members();
        proof {
            lemma_member_seq_of_ascending(ms@);
        }
        let mut h: u64 = FNV_BASIS;
        let mut k: usize = 0;
        proof {
            assert(ms@.skip(0) =~= ms@);
        }
        while k < ms.len()
            invariant
                k <= ms.len(),
                color_fold(FNV_BASIS, ms@) == color_fold(h, ms@.skip(k as int)),
            decreases ms.len() - k,
        {
            proof {
                assert(ms@.skip(k as int)[0] == ms@[k as int]);
                assert(ms@.skip(k as int).drop_first() =~= ms@.skip(k as int + 1));
            }
            h = fnv_u32_exec(h, ms[k]);
            k = k + 1;
        }
        proof {
            assert(ms@.skip(ms@.len() as int) =~= Seq::<u32>::empty());
        }
        h
    }
}

/// The color table: a mapping from color to the compact index set it was
/// derived from, with content-addressed allocation and merge.
pub struct Colors {
    pub entries: Vec<(u64, Datasets)>,
}

impl Colors {
    /// Every stored set is canonical and nonempty, every key is the color
    /// of its set, and no key repeats.
    pub open spec fn wf(self) -> bool {
        &&& forall|i: int|
            0 <= i < self.entries@.len() ==> (#[trigger] self.entries@[i]).1.canonical()
        &&& forall|i: int|
            0 <= i < self.entries@.len() ==> (#[trigger] self.entries@[i]).1.set().len() >= 1
        &&& forall|i: int|
            0 <= i < self.entries@.len() ==> (#[trigger] self.entries@[i]).0 == color_of_set(
                self.entries@[i].1.set(),
            )
        &&& forall|i: int, j: int|
            0 <= i < j < self.entries@.len() ==> self.entries@[i].0 != self.entries@[j].0
    }

    /// Whether the table has allocated `c`.
    pub open spec fn has_color(self, c: u64) -> bool {
        exists|i: int| 0 <= i < self.entries@.len() && (#[trigger] self.entries@[i]).0 == c
    }

    /// The position of color `c`.
    pub open spec fn idx_of(self, c: u64) -> int {
        choose|i: int| 0 <= i < self.entries@.len() && (#[trigger] self.entries@[i]).0 == c
    }

    /// The member set stored for color `c`.
    pub open spec fn set_of(self, c: u64) -> Set<u32> {
        self.entries@[self.idx_of(c)].1.set()
    }

    /// The table as a mapping from color to member set.
    pub open spec fn map(self) -> Map<u64, Set<u32>> {
        Map::new(|c: u64| self.has_color(c), |c: u64| self.set_of(c))
    }

    /// The set stored beside key `i` is what the map resolves that key to.
    pub proof fn lemma_lookup(self, i: int)
        requires
            self.wf(),
            0 <= i < self.entries@.len(),
        ensures
            self.has_color(self.entries@[i].0),
            self.set_of(self.entries@[i].0) == self.entries@[i].1.set(),
    {
        assert(self.entries@[i].0 == self.entries@[i].0);
        let j = self.idx_of(self.entries@[i].0);
        if i < j {
            assert(self.entries@[i].0 != self.entries@[j].0);
        } else if j < i {
            assert(self.entries@[j].0 != self.entries@[i].0);
        }
    }

    /// An empty table.
    pub fn new() -> (r: Colors)
        ensures
            r.wf(),
            r.map() == Map::<u64, Set<u32>>::empty(),
    {
        let r = Colors { entries: Vec::new() };
        proof {
            assert(r.map() =~= Map::<u64, Set<u32>>::empty());
        }
        r
    }

    /// Linear scan for a color.
    fn find(&self, color: u64) -> (r: Option<usize>)
        ensures
            match r {
                Some(i) => i < self.entries@.len() && self.entries@[i as int].0 == color,
                None => !self.has_color(color),
            },
    {
        let mut j: usize = 0;
        while j < self.entries.len()
            invariant
                j <= self.entries@.len(),
                forall|k: int| 0 <= k < j ==> (#[trigger] self.entries@[k]).0 != color,
            decreases self.entries@.len() - j,
        {
            if self.entries[j].0 == color {
                return Some(j);
            }
            j = j + 1;
        }
        None
    }

    /// Copies one allocated color and its member set over from another
    /// table; where this table already has the color, it must agree.
    pub fn copy_color_from(&mut self, other: &Colors, color: u64)
        requires
            old(self).wf(),
            other.wf(),
            other.has_color(color),
            old(self).has_color(color) ==> old(self).map()[color] == other.map()[color],
        ensures
            final(self).wf(),
            final(self).map() == old(self).map().insert(color, other.map()[color]),
            forall|x: u64|
                #[trigger] final(self).has_color(x) <==> (old(self).has_color(x) || x == color),
    {
        let ghost before = *self;
        match self.find(color) {
            Some(_) => {
                proof {
                    assert(self.map().insert(color, other.map()[color]) =~= self.map());
                }
            },
            None => {
                let j = match other.find(color) {
                    Some(j) => j,
                    None => {
                        proof {
                            assert(false);
                        }
                        0
                    },
                };
                let d = other.entries[j].1.clone();
                proof {
                    other.lemma_lookup(j as int);
                }
                self.entries.push((color, d));
                proof {
                    let n = before.entries@.len() as int;
                    assert(forall|k: int|
                        0 <= k < n ==> self.entries@[k] == (#[trigger] before.entries@[k]));
                    assert(self.entries@[n] == (color, d));
                    assert(self.wf()) by {
                        assert forall|p: int, q: int|
                            0 <= p < q < self.entries@.len() implies self.entries@[p].0
                            != self.entries@[q].0 by {
                            if q == self.entries@.len() - 1 {
                                if self.entries@[p].0 == color {
                                    assert(before.has_color(color));
                                }
                            }
                        }
                    }
                    assert(self.map() =~= before.map().insert(color, other.map()[color])) by {
                        assert forall|x: u64| self.has_color(x) implies before.map().insert(
                            color,
                            other.map()[color],
                        ).dom().contains(x) by {
                            let k = choose|k: int|
                                0 <= k < self.entries@.len() && (#[trigger] self.entries@[k]).0
                                    == x;
                            if k < n {
                                assert(before.entries@[k].0 == x);
                            }
                        }
                        assert forall|x: u64| before.map().insert(color, other.map()[color]).dom().contains(
                            x,
                        ) implies self.has_color(x) by {
                            if x == color {
                                assert(self.entries@[n].0 == color);
                            } else {
                                let k = choose|k: int|
                                    0 <= k < before.entries@.len() && (
                                    #[trigger] before.entries@[k]).0 == x;
                                assert(self.entries@[k].0 == x);
                            }
                        }
                        assert forall|x: u64| self.has_color(x) implies self.map()[x]
                            == before.map().insert(color, other.map()[color])[x] by {
                            if x == color {
                                self.lemma_lookup(n);
                            } else {
                                let k = choose|k: int|
                                    0 <= k < self.entries@.len() && (#[trigger] self.entries@[k]).0
                                        == x;
                                assert(k < n);
                                self.lemma_lookup(k);
                                before.lemma_lookup(k);
                            }
                        }
                    }
                    assert forall|x: u64| #[trigger] self.has_color(x) <==> (before.has_color(x)
                        || x == color) by {
                        assert(self.map().dom().contains(x) <==> self.has_color(x));
                        assert(before.map().dom().contains(x) <==> before.has_color(x));
                        assert(self.map().dom() =~= before.map().insert(
                            color,
                            other.map()[color],
                        ).dom());
                    }
                }
            },
        }
    }

    /// Whether the table has allocated this color.
    pub fn contains_color(&self, color: u64) -> (r: bool)
        ensures
            r == self.has_color(color),
    {
        match self.find(color) {
            Some(_) => true,
            None => false,
        }
    }

    /// The ascending member sequence recorded for an allocated color.
    pub fn indices(&self, color: u64) -> (r: Vec<u32>)
        requires
            self.wf(),
            self.has_color(color),
        ensures
            ascending(r@),
            r@.to_set() == self.map()[color],
            r@.len() >= 1,
    {
        let i = match self.find(color) {
            Some(i) => i,
            None => {
                // unreachable: the color is allocated
                proof {
                    assert(false);
                }
                0
            },
        };
        let r = self.entries[i].1.members();
        proof {
            self.lemma_lookup(i as int);
            crate::seqs::lemma_ascending_set_len(r@);
        }
        r
    }

    /// Content-addressed allocation and merge.
    ///
    /// With no `existing` color, allocates (or re-finds) the color of the
    /// set spelled by `new_idx`; with one, merges `new_idx` into that
    /// color's member set and allocates the merged set's color. Returns a
    /// collision error, and changes nothing, exactly when a different
    /// member set already owns the derived color.
    pub fn update(&mut self, existing: Option<u64>, new_idx: &Vec<u32>) -> (r: Result<
        u64,
        Error,
    >)
        requires
            old(self).wf(),
            ascending(new_idx@),
            new_idx@.len() >= 1,
            match existing {
                Some(c) => old(self).has_color(c),
                None => true,
            },
        ensures
            final(self).wf(),
            ({
                let prev = match existing {
                    Some(c) => old(self).map()[c],
                    None => Set::<u32>::empty(),
                };
                let m = prev.union(new_idx@.to_set());
                &&& match r {
                    Ok(c) => {
                        &&& c == color_of_set(m)
                        &&& final(self).map() == old(self).map().insert(c, m)
                        &&& final(self).has_color(c)
                    },
                    Err(e) => {
                        &&& e == Error::ColorCollision
                        &&& *final(self) == *old(self)
                    },
                }
                &&& (r is Err <==> (old(self).has_color(color_of_set(m)) && old(
                    self,
                ).map()[color_of_set(m)] != m))
            }),
    {
        let ghost prev = match existing {
            Some(c) => old(self).map()[c],
            None => Set::<u32>::empty(),
        };
        let ghost m = prev.union(new_idx@.to_set());
        let base: Vec<u32> = match existing {
            Some(c) => self.indices(c),
            None => Vec::new(),
        };
        proof {
            if existing is None {
                assert(base@.to_set() =~= prev);
            }
        }
        let merged_vals = crate::seqs::merge_ascending(&base, new_idx);
        let merged = Datasets::new(&merged_vals);
        proof {
            assert(merged.set() =~= m);
            assert(new_idx@.to_set().contains(new_idx@[0])) by {
                assert(new_idx@.contains(new_idx@[0]));
            }
            assert(m.contains(new_idx@[0]));
            crate::seqs::lemma_ascending_set_len(merged_vals@);
            vstd::set_lib::lemma_set_empty_equivalency_len(m);
        }
        let c = merged.color_hash();
        match self.find(c) {
            Some(i) => {
                let stored = self.entries[i].1.members();
                proof {
                    self.lemma_lookup(i as int);
                }
                if vec_eq(&stored, &merged_vals) {
                    proof {
                        assert(self.map()[c] == m);
                        assert(self.map().insert(c, m) =~= self.map());
                    }
                    Ok(c)
                } else {
                    proof {
                        if self.entries@[i as int].1.set() == merged_vals@.to_set() {
                            lemma_ascending_unique(stored@, merged_vals@);
                        }
                        assert(self.map()[c] != m);
                    }
                    Err(Error::ColorCollision)
                }
            },
            None => {
                let ghost before = *self;
                self.entries.push((c, merged));
                proof {
                    assert(forall|k: int|
                        0 <= k < before.entries@.len() ==> self.entries@[k] == before.entries@[k]);
                    assert(self.entries@[before.entries@.len() as int] == (c, merged));
                    assert(self.wf()) by {
                        assert forall|p: int, q: int|
                            0 <= p < q < self.entries@.len() implies self.entries@[p].0
                            != self.entries@[q].0 by {
                            if q == self.entries@.len() - 1 {
                                if self.entries@[p].0 == c {
                                    assert(before.has_color(c));
                                }
                            }
                        }
                    }
                    let n = before.entries@.len() as int;
                    assert(self.map() =~= before.map().insert(c, m)) by {
                        assert forall|x: u64| self.has_color(x) implies before.map().insert(
                            c,
                            m,
                        ).dom().contains(x) by {
                            let k = choose|k: int|
                                0 <= k < self.entries@.len() && (#[trigger] self.entries@[k]).0
                                    == x;
                            if k < n {
                                assert(before.has_color(x));
                            }
                        }
                        assert forall|x: u64| before.map().insert(c, m).dom().contains(x)
                            implies self.has_color(x) by {
                            if x == c {
                                assert(self.entries@[n].0 == c);
                            } else {
                                let k = choose|k: int|
                                    0 <= k < before.entries@.len() && (
                                    #[trigger] before.entries@[k]).0 == x;
                                assert(self.entries@[k].0 == x);
                            }
                        }
                        assert forall|x: u64| self.has_color(x) implies self.map()[x]
                            == before.map().insert(c, m)[x] by {
                            if x == c {
                                self.lemma_lookup(n);
                            } else {
                                let k = choose|k: int|
                                    0 <= k < self.entries@.len() && (#[trigger] self.entries@[k]).0
                                        == x;
                                assert(k < n);
                                self.lemma_lookup(k);
                                before.lemma_lookup(k);
                            }
                        }
                    }
                    self.lemma_lookup(n);
                }
                Ok(c)
            },
        }
    }
}

/// Elementwise equality of two index vectors.
fn vec_eq(a: &Vec<u32>, b: &Vec<u32>) -> (r: bool)
    ensures
        r <==> a@ == b@,
{
    if a.len() != b.len() {
        proof {
            assert(a@.len() != b@.len());
        }
        return false;
    }
    let mut k: usize = 0;
    while k < a.len()
        invariant
            k <= a@.len(),
            a@.len() == b@.len(),
            forall|i: int| 0 <= i < k ==> a@[i] == b@[i],
        decreases a@.len() - k,
    {
        if a[k] != b[k] {
            proof {
                assert(a@[k as int] != b@[k as int]);
            }
            return false;
        }
        k = k + 1;
    }
    proof {
        assert(a@ =~= b@);
    }
    true
}

} // verus!
