//! The mapping from raw sketch hash values to colors, its per-dataset
//! population, and the associative reduction that merges two independently
//! built (mapping, color table) pairs.

use crate::colors::{color_of_set, Colors};
use crate::datasets::Datasets;
use crate::Error;
use crate::Idx;
use vstd::prelude::*;

verus! {

/// Mapping from hash value to color, kept as an association vector with
/// strictly ascending hash keys.
pub struct HashToColor {
    pub entries: Vec<(u64, u64)>,
}

impl HashToColor {
    /// Hash keys are strictly ascending, hence unique.
    pub open spec fn wf(self) -> bool {
        forall|i: int, j: int|
            0 <= i < j < self.entries@.len() ==> (#[trigger] self.entries@[i]).0 < (
            #[trigger] self.entries@[j]).0
    }

    /// Whether `x` is mapped.
    pub open spec fn has_hash(self, x: u64) -> bool {
        exists|i: int| 0 <= i < self.entries@.len() && (#[trigger] self.entries@[i]).0 == x
    }

    /// The position of hash `x`.
    pub open spec fn idx_of(self, x: u64) -> int {
        choose|i: int| 0 <= i < self.entries@.len() && (#[trigger] self.entries@[i]).0 == x
    }

    /// The mapping from hash to color.
    pub open spec fn map(self) -> Map<u64, u64> {
        Map::new(|x: u64| self.has_hash(x), |x: u64| self.entries@[self.idx_of(x)].1)
    }

    /// The hashes stored in the first `k` entries.
    pub open spec fn keys_upto(self, k: int) -> Set<u64> {
        Set::new(
            |x: u64|
                exists|i: int| 0 <= i < k && i < self.entries@.len() && (
                #[trigger] self.entries@[i]).0 == x,
        )
    }

    /// The color stored beside key `i` is what the map resolves that key
    /// to.
    pub proof fn lemma_lookup(self, i: int)
        requires
            self.wf(),
            0 <= i < self.entries@.len(),
        ensures
            self.has_hash(self.entries@[i].0),
            self.map()[self.entries@[i].0] == self.entries@[i].1,
    {
        assert(self.entries@[i].0 == self.entries@[i].0);
        let j = self.idx_of(self.entries@[i].0);
        if i < j {
            assert(self.entries@[i].0 < self.entries@[j].0);
        } else if j < i {
            assert(self.entries@[j].0 < self.entries@[i].0);
        }
    }

    /// An empty mapping.
    pub fn new() -> (r: HashToColor)
        ensures
            r.wf(),
            r.map() == Map::<u64, u64>::empty(),
            r.entries@.len() == 0,
    {
        let r = HashToColor { entries: Vec::new() };
        proof {
            assert(r.map() =~= Map::<u64, u64>::empty());
        }
        r
    }

    /// The color mapped for a hash, if any.
    pub fn get(&self, hash: &u64) -> (r: Option<u64>)
        requires
            self.wf(),
        ensures
            match r {
                Some(c) => self.has_hash(*hash) && self.map()[*hash] == c,
                None => !self.has_hash(*hash),
            },
    {
        let mut j: usize = 0;
        while j < self.entries.len()
            invariant
                self.wf(),
                j <= self.entries@.len(),
                forall|k: int| 0 <= k < j ==> (#[trigger] self.entries@[k]).0 != *hash,
            decreases self.entries@.len() - j,
        {
            if self.entries[j].0 == *hash {
                proof {
                    self.lemma_lookup(j as int);
                }
                return Some(self.entries[j].1);
            }
            j = j + 1;
        }
        None
    }

    /// The number of mapped hashes.
    pub fn len(&self) -> (r: usize)
        ensures
            r == self.entries@.len(),
    {
        self.entries.len()
    }

    /// Whether no hash is mapped.
    pub fn is_empty(&self) -> (r: bool)
        ensures
            r <==> self.entries@.len() == 0,
    {
        self.entries.len() == 0
    }

    /// Maps `hash` to `color`, replacing any previous color for it.
    pub fn set_color(&mut self, hash: u64, color: u64)
        requires
            old(self).wf(),
        ensures
            final(self).wf(),
            final(self).map() == old(self).map().insert(hash, color),
            final(self).entries@.len() <= old(self).entries@.len() + 1,
            forall|x: u64|
                #[trigger] final(self).has_hash(x) <==> (old(self).has_hash(x) || x == hash),
            forall|x: u64|
                x != hash && old(self).has_hash(x) ==> #[trigger] final(self).map()[x] == old(
                    self,
                ).map()[x],
            final(self).has_hash(hash),
            final(self).map()[hash] == color,
    {
        let ghost before = *self;
        let mut p: usize = 0;
        while p < self.entries.len() && self.entries[p].0 < hash
            invariant
                *self == before,
                p <= self.entries@.len(),
                forall|k: int| 0 <= k < p ==> (#[trigger] self.entries@[k]).0 < hash,
            decreases self.entries@.len() - p,
        {
            p = p + 1;
        }
        if p < self.entries.len() && self.entries[p].0 == hash {
            self.entries.set(p, (hash, color));
            proof {
                assert(final(self).wf());
                assert(self.map() =~= before.map().insert(hash, color)) by {
                    assert forall|x: u64| self.has_hash(x) implies before.map().insert(
                        hash,
                        color,
                    ).dom().contains(x) by {
                        let k = choose|k: int|
                            0 <= k < self.entries@.len() && (#[trigger] self.entries@[k]).0 == x;
                        if k != p {
                            assert(before.entries@[k].0 == x);
                        }
                    }
                    assert forall|x: u64| before.map().insert(hash, color).dom().contains(x)
                        implies self.has_hash(x) by {
                        if x == hash {
                            assert(self.entries@[p as int].0 == x);
                        } else {
                            let k = choose|k: int|
                                0 <= k < before.entries@.len() && (#[trigger] before.entries@[k]).0
                                    == x;
                            assert(self.entries@[k].0 == x);
                        }
                    }
                    assert forall|x: u64| self.has_hash(x) implies self.map()[x]
                        == before.map().insert(hash, color)[x] by {
                        let k = choose|k: int|
                            0 <= k < self.entries@.len() && (#[trigger] self.entries@[k]).0 == x;
                        self.lemma_lookup(k);
                        if x == hash {
                            self.lemma_lookup(p as int);
                        } else {
                            assert(k != p);
                            assert(before.entries@[k].0 == x);
                            before.lemma_lookup(k);
                        }
                    }
                }
                assert forall|x: u64| #[trigger] self.has_hash(x) <==> (before.has_hash(x) || x
                    == hash) by {
                    assert(self.map().dom().contains(x) <==> self.has_hash(x));
                    assert(before.map().dom().contains(x) <==> before.has_hash(x));
                    assert(self.map().dom() =~= before.map().insert(hash, color).dom());
                }
                assert(self.has_hash(hash)) by {
                    assert(self.map().dom().contains(hash));
                }
            }
        } else {
            self.entries.insert(p, (hash, color));
            proof {
                assert(forall|k: int|
                    0 <= k < p ==> self.entries@[k] == (#[trigger] before.entries@[k]));
                assert(forall|k: int|
                    p < k < self.entries@.len() ==> self.entries@[k] == (
                    #[trigger] before.entries@[k - 1]));
                assert(self.entries@[p as int] == (hash, color));
                assert(final(self).wf()) by {
                    assert forall|i: int, j: int|
                        0 <= i < j < self.entries@.len() implies self.entries@[i].0
                        < self.entries@[j].0 by {
                        if i == p {
                            assert(before.entries@[j - 1].0 >= hash);
                            assert(before.entries@[j - 1].0 != hash);
                        } else if j == p {
                            assert(before.entries@[i].0 < hash);
                        }
                    }
                }
                assert(self.map() =~= before.map().insert(hash, color)) by {
                    assert forall|x: u64| self.has_hash(x) implies before.map().insert(
                        hash,
                        color,
                    ).dom().contains(x) by {
                        let k = choose|k: int|
                            0 <= k < self.entries@.len() && (#[trigger] self.entries@[k]).0 == x;
                        if k < p {
                            assert(before.entries@[k].0 == x);
                        } else if k > p {
                            assert(before.entries@[k - 1].0 == x);
                        }
                    }
                    assert forall|x: u64| before.map().insert(hash, color).dom().contains(x)
                        implies self.has_hash(x) by {
                        if x == hash {
                            assert(self.entries@[p as int].0 == x);
                        } else {
                            let k = choose|k: int|
                                0 <= k < before.entries@.len() && (#[trigger] before.entries@[k]).0
                                    == x;
                            if k < p {
                                assert(self.entries@[k].0 == x);
                            } else {
                                assert(self.entries@[k + 1].0 == x);
                            }
                        }
                    }
                    assert forall|x: u64| self.has_hash(x) implies self.map()[x]
                        == before.map().insert(hash, color)[x] by {
                        let k = choose|k: int|
                            0 <= k < self.entries@.len() && (#[trigger] self.entries@[k]).0 == x;
                        self.lemma_lookup(k);
                        if x == hash {
                            self.lemma_lookup(p as int);
                        } else if k < p {
                            assert(before.entries@[k].0 == x);
                            before.lemma_lookup(k);
                        } else {
                            assert(k > p);
                            assert(before.entries@[k - 1].0 == x);
                            before.lemma_lookup(k - 1);
                            assert(self.entries@[k] == before.entries@[k - 1]);
                        }
                    }
                }
                assert forall|x: u64| #[trigger] self.has_hash(x) <==> (before.has_hash(x) || x
                    == hash) by {
                    assert(self.map().dom().contains(x) <==> self.has_hash(x));
                    assert(before.map().dom().contains(x) <==> before.has_hash(x));
                    assert(self.map().dom() =~= before.map().insert(hash, color).dom());
                }
                assert(self.has_hash(hash)) by {
                    assert(self.map().dom().contains(hash));
                }
            }
        }
    }
}

impl HashToColor {
    /// Populates the mapping for one dataset: every matched hash becomes
    /// mapped to the color of the singleton set holding that dataset's
    /// index, which is allocated in `colors` on first use. Fails, changing
    /// nothing, exactly when a different member set already owns that
    /// singleton's color.
    pub fn add_to(&mut self, colors: &mut Colors, dataset_id: Idx, matched_hashes: Vec<u64>) -> (r:
        Result<(), Error>)
        requires
            old(self).wf(),
            old(colors).wf(),
            linked(*old(self), *old(colors)),
        ensures
            final(self).wf(),
            final(colors).wf(),
            linked(*final(self), *final(colors)),
            ({
                let single = Set::<u32>::empty().insert(dataset_id);
                let c0 = color_of_set(single);
                let before_h = *old(self);
                let before_c = *old(colors);
                let after_h = *final(self);
                let after_c = *final(colors);
                &&& match r {
                    Ok(u) => {
                        &&& (matched_hashes@.len() == 0 ==> after_h == before_h && after_c
                            == before_c)
                        &&& (matched_hashes@.len() > 0 ==> after_c.map() == before_c.map().insert(
                            c0,
                            single,
                        ))
                        &&& resolved(after_h, after_c) == overridden(
                            resolved(before_h, before_c),
                            matched_hashes@.to_set(),
                            single,
                        )
                    },
                    Err(e) => {
                        &&& e == Error::ColorCollision
                        &&& after_h == before_h
                        &&& after_c == before_c
                    },
                }
                &&& (r is Err <==> (matched_hashes@.len() > 0 && before_c.has_color(c0)
                    && before_c.map()[c0] != single))
                &&& forall|x: u64|
                    !matched_hashes@.contains(x) ==> ((#[trigger] after_h.has_hash(x)
                        <==> before_h.has_hash(x)) && (after_h.has_hash(x) ==> after_h.map()[x]
                        == before_h.map()[x]))
                &&& (r is Ok ==> forall|x: u64|
                    #[trigger] matched_hashes@.contains(x) ==> (after_h.has_hash(x)
                        && after_h.map()[x] == c0))
            }),
    {
        let ghost single = Set::<u32>::empty().insert(dataset_id);
        let ghost old_h = *old(self);
        let ghost old_c = *old(colors);
        if matched_hashes.len() == 0 {
            proof {
                assert(matched_hashes@.to_set() =~= Set::<u64>::empty());
                assert(resolved(*self, *colors) =~= overridden(
                    resolved(old_h, old_c),
                    matched_hashes@.to_set(),
                    single,
                ));
            }
            return Ok(());
        }
        let mut single_v: Vec<u32> = Vec::new();
        single_v.push(dataset_id);
        proof {
            assert(single_v@.contains(dataset_id)) by {
                assert(single_v@[0] == dataset_id);
            }
            assert forall|x: u32| single_v@.to_set().contains(x) implies single.contains(x) by {
                let k = choose|k: int| 0 <= k < single_v@.len() && single_v@[k] == x;
                assert(k == 0);
            }
            assert(single_v@.to_set() =~= single);
            assert(Set::<u32>::empty().union(single_v@.to_set()) =~= single);
        }
        let c0 = match colors.update(None, &single_v) {
            Ok(c) => c,
            Err(e) => {
                return Err(e);
            },
        };
        let mut k: usize = 0;
        while k < matched_hashes.len()
            invariant
                self.wf(),
                colors.wf(),
                k <= matched_hashes@.len(),
                colors.map() == old_c.map().insert(c0, single),
                colors.has_color(c0),
                colors.map()[c0] == single,
                c0 == color_of_set(single),
                linked(old_h, old_c),
                forall|x: u64|
                    matched_hashes@.take(k as int).contains(x) ==> #[trigger] self.has_hash(x)
                        && self.map()[x] == c0,
                forall|x: u64|
                    !matched_hashes@.take(k as int).contains(x) ==> ((#[trigger] self.has_hash(x)
                        <==> old_h.has_hash(x)) && (self.has_hash(x) ==> self.map()[x]
                        == old_h.map()[x])),
            decreases matched_hashes@.len() - k,
        {
            let h = matched_hashes[k];
            self.set_color(h, c0);
            proof {
                assert(matched_hashes@.take(k as int + 1).drop_last() =~= matched_hashes@.take(
                    k as int,
                ));
                assert(matched_hashes@.take(k as int + 1).last() == matched_hashes@[k as int]);
                assert forall|x: u64| matched_hashes@.take(k as int + 1).contains(x) implies x == h
                    || matched_hashes@.take(k as int).contains(x) by {
                    let i = choose|i: int|
                        0 <= i < k + 1 && #[trigger] matched_hashes@.take(k as int + 1)[i] == x;
                    if i < k {
                        assert(matched_hashes@.take(k as int)[i] == x);
                    }
                }
                assert forall|x: u64| matched_hashes@.take(k as int).contains(x)
                    implies matched_hashes@.take(k as int + 1).contains(x) by {
                    let i = choose|i: int| 0 <= i < k && matched_hashes@.take(k as int)[i] == x;
                    assert(matched_hashes@.take(k as int + 1)[i] == x);
                }
                assert(matched_hashes@.take(k as int + 1).contains(h)) by {
                    assert(matched_hashes@.take(k as int + 1)[k as int] == h);
                }
            }
            k = k + 1;
        }
        proof {
            assert(matched_hashes@.take(matched_hashes@.len() as int) =~= matched_hashes@);
            assert(linked(*self, *colors)) by {
                assert forall|x: u64| self.has_hash(x) implies colors.has_color(
                    #[trigger] self.map()[x],
                ) by {
                    if !matched_hashes@.contains(x) {
                        assert(old_c.has_color(self.map()[x]));
                        let i = choose|i: int|
                            0 <= i < old_c.entries@.len() && (#[trigger] old_c.entries@[i]).0
                                == self.map()[x];
                        assert(old_c.map().dom().contains(self.map()[x]));
                        assert(colors.map().dom().contains(self.map()[x]));
                    }
                }
            }
            assert(resolved(*self, *colors) =~= overridden(
                resolved(old_h, old_c),
                matched_hashes@.to_set(),
                single,
            )) by {
                assert forall|x: u64|
                    self.has_hash(x) && !matched_hashes@.to_set().contains(x)
                    implies #[trigger] resolved(*self, *colors)[x] == resolved(old_h, old_c)[x] by {
                    assert(!matched_hashes@.contains(x));
                    assert(self.map()[x] == old_h.map()[x]);
                    assert(old_c.has_color(old_h.map()[x]));
                    assert(old_c.map().dom().contains(old_h.map()[x]));
                    if old_h.map()[x] == c0 {
                        assert(colors.map()[c0] == single);
                        assert(old_c.map()[c0] == single) by {
                            if old_c.map()[c0] != single {
                                assert(false);
                            }
                        }
                    }
                }
            }
        }
        Ok(())
    }
}

/// A failed merge update names two distinct family member sets sharing a
/// color: the one the table stores under the derived color, and the merged
/// set itself.
proof fn lemma_reduce_collision_witness(
    small_h: HashToColor,
    small_c: Colors,
    lh0: HashToColor,
    lc0: Colors,
    table: Colors,
    m: Set<u32>,
)
    requires
        table.wf(),
        table.has_color(color_of_set(m)),
        table.map()[color_of_set(m)] != m,
        forall|c: u64|
            #[trigger] table.has_color(c) ==> in_reduce_family(
                small_h,
                small_c,
                lh0,
                lc0,
                table.map()[c],
            ),
        in_reduce_family(small_h, small_c, lh0, lc0, m),
    ensures
        !reduce_collision_free(small_h, small_c, lh0, lc0),
{
    let bad = color_of_set(m);
    let s1 = table.map()[bad];
    assert(in_reduce_family(small_h, small_c, lh0, lc0, s1));
    assert(color_of_set(s1) == bad) by {
        let bi = table.idx_of(bad);
        table.lemma_lookup(bi);
        assert(table.entries@[bi].0 == bad);
    }
    assert(!reduce_collision_free(small_h, small_c, lh0, lc0)) by {
        assert(color_of_set(s1) == color_of_set(m));
        assert(s1 != m);
    }
}

/// The member sets a reduction of the `small` pair into the `large` pair
/// touches: every set already stored in the larger side's table, and the
/// merged member set of every hash of the smaller side.
pub open spec fn in_reduce_family(
    small_h: HashToColor,
    small_c: Colors,
    large_h: HashToColor,
    large_c: Colors,
    s: Set<u32>,
) -> bool {
    ||| exists|c: u64| #[trigger] large_c.has_color(c) && large_c.map()[c] == s
    ||| exists|x: u64|
        #[trigger] small_h.has_hash(x) && s == union_resolved(
            resolved(small_h, small_c),
            resolved(large_h, large_c),
        )[x]
}

/// The color derivation separates every pair of member sets the reduction
/// of these two pairs touches.
pub open spec fn reduce_collision_free(
    small_h: HashToColor,
    small_c: Colors,
    large_h: HashToColor,
    large_c: Colors,
) -> bool {
    forall|s1: Set<u32>, s2: Set<u32>|
        in_reduce_family(small_h, small_c, large_h, large_c, s1) && in_reduce_family(
            small_h,
            small_c,
            large_h,
            large_c,
            s2,
        ) && #[trigger] color_of_set(s1) == #[trigger] color_of_set(s2) ==> s1 == s2
}

impl HashToColor {
    /// Merges two independently built (mapping, color table) pairs by
    /// folding the structurally smaller mapping into the larger one. The
    /// merged pair resolves every hash to the union of the member sets the
    /// two inputs resolved it to. Where a hash is new to the larger side,
    /// its coloring is re-derived there and — colors being a function of
    /// content alone — necessarily equals the color the smaller side used.
    /// The only failure is a genuine color collision between two distinct
    /// member sets the reduction touches; a collision-free pair of inputs
    /// is owed success.
    #[verifier::loop_isolation(false)]
    #[verifier::rlimit(100)]
    pub fn reduce_hashes_colors(a: (HashToColor, Colors), b: (HashToColor, Colors)) -> (r: Result<
        (HashToColor, Colors),
        Error,
    >)
        requires
            a.0.wf(),
            a.1.wf(),
            linked(a.0, a.1),
            b.0.wf(),
            b.1.wf(),
            linked(b.0, b.1),
        ensures
            match r {
                Ok(p) => p.0.wf() && p.1.wf() && linked(p.0, p.1) && resolved(p.0, p.1)
                    == union_resolved(resolved(a.0, a.1), resolved(b.0, b.1)),
                Err(e) => e == Error::ColorCollision,
            },
            ({
                let picked_small = if a.0.entries@.len() > b.0.entries@.len() {
                    b
                } else {
                    a
                };
                let picked_large = if a.0.entries@.len() > b.0.entries@.len() {
                    a
                } else {
                    b
                };
                let rcf = reduce_collision_free(
                    picked_small.0,
                    picked_small.1,
                    picked_large.0,
                    picked_large.1,
                );
                &&& (r is Err ==> !rcf)
                &&& (rcf ==> r is Ok)
            }),
    {
        let ghost res_a = resolved(a.0, a.1);
        let ghost res_b = resolved(b.0, b.1);
        let swapped = a.0.entries.len() > b.0.entries.len();
        let (pair_small, pair_large) = if swapped {
            (b, a)
        } else {
            (a, b)
        };
        let (small_h, small_c) = pair_small;
        let (mut large_h, mut large_c) = pair_large;
        let ghost lh0 = large_h;
        let ghost lc0 = large_c;
        let ghost res_small = resolved(small_h, small_c);
        let ghost res_large = resolved(large_h, large_c);
        proof {
            assert forall|x: u64| #[trigger] large_h.has_hash(x)
                implies res_large.dom().contains(x) by {
                assert(resolved(large_h, large_c).dom().contains(x));
            }
            assert forall|x: u64| res_large.dom().contains(x)
                implies #[trigger] large_h.has_hash(x) by {}
            assert forall|c: u64| #[trigger] large_c.has_color(c) implies in_reduce_family(
                small_h,
                small_c,
                lh0,
                lc0,
                large_c.map()[c],
            ) by {
                assert(lc0.has_color(c) && lc0.map()[c] == large_c.map()[c]);
            }
        }
        let mut k: usize = 0;
        while k < small_h.entries.len()
            invariant
                small_h.wf(),
                small_c.wf(),
                linked(small_h, small_c),
                large_h.wf(),
                large_c.wf(),
                linked(large_h, large_c),
                k <= small_h.entries@.len(),
                res_small == resolved(small_h, small_c),
                forall|x: u64|
                    #[trigger] large_h.has_hash(x) <==> (res_large.dom().contains(x)
                        || small_h.keys_upto(k as int).contains(x)),
                forall|x: u64|
                    #[trigger] large_h.has_hash(x) ==> large_c.map()[large_h.map()[x]]
                        == merge_value(res_small, res_large, x, small_h.keys_upto(k as int)),
                forall|c: u64|
                    #[trigger] large_c.has_color(c) ==> in_reduce_family(
                        small_h,
                        small_c,
                        lh0,
                        lc0,
                        large_c.map()[c],
                    ),
            decreases small_h.entries@.len() - k,
        {
            let (hash, color) = small_h.entries[k];
            proof {
                small_h.lemma_lookup(k as int);
                assert(small_h.keys_upto(k as int + 1) =~= small_h.keys_upto(k as int).insert(
                    hash,
                )) by {
                    assert(small_h.entries@[k as int].0 == hash);
                }
                assert(!small_h.keys_upto(k as int).contains(hash)) by {
                    if small_h.keys_upto(k as int).contains(hash) {
                        let i = choose|i: int|
                            0 <= i < k && i < small_h.entries@.len() && (
                            #[trigger] small_h.entries@[i]).0 == hash;
                        assert(small_h.entries@[i].0 < small_h.entries@[k as int].0);
                    }
                }
                assert(res_small.dom().contains(hash));
                assert(res_small[hash] == small_c.map()[color]);
            }
            let ids = small_c.indices(color);
            let ghost cur_h = large_h;
            let ghost cur_c = large_c;
            proof {
                vstd::set_lib::lemma_set_empty_equivalency_len(ids@.to_set());
                crate::seqs::lemma_ascending_set_len(ids@);
            }
            let existing = large_h.get(&hash);
            let ghost m_merge = match existing {
                Some(ec0) => res_large[hash].union(res_small[hash]),
                None => res_small[hash],
            };
            proof {
                assert(union_resolved(res_small, res_large).dom().contains(hash));
                if existing is Some {
                    assert(res_large.dom().contains(hash));
                    assert(m_merge =~= union_resolved(res_small, res_large)[hash]);
                } else {
                    assert(!res_large.dom().contains(hash));
                    assert(m_merge =~= union_resolved(res_small, res_large)[hash]);
                }
                assert(in_reduce_family(small_h, small_c, lh0, lc0, m_merge)) by {
                    assert(small_h.has_hash(hash));
                    assert(m_merge == union_resolved(res_small, res_large)[hash]);
                }
            }
            let nc: u64;
            match existing {
                Some(ec) => {
                    proof {
                        assert(large_c.map()[cur_h.map()[hash]] == merge_value(
                            res_small,
                            res_large,
                            hash,
                            small_h.keys_upto(k as int),
                        ));
                        assert(res_large.dom().contains(hash));
                        assert(large_c.map()[ec] == res_large[hash]);
                    }
                    match large_c.update(Some(ec), &ids) {
                        Ok(c) => {
                            nc = c;
                            proof {
                                assert(large_c.map()[nc] == res_large[hash].union(
                                    res_small[hash],
                                ));
                            }
                        },
                        Err(e) => {
                            proof {
                                lemma_reduce_collision_witness(
                                    small_h,
                                    small_c,
                                    lh0,
                                    lc0,
                                    cur_c,
                                    m_merge,
                                );
                            }
                            return Err(e);
                        },
                    }
                },
                None => {
                    proof {
                        assert(!res_large.dom().contains(hash));
                    }
                    match large_c.update(None, &ids) {
                        Ok(c) => {
                            nc = c;
                            proof {
                                assert(Set::<u32>::empty().union(ids@.to_set()) =~= ids@.to_set());
                                // Cross-table determinism: the color
                                // re-derived in the larger table equals the
                                // color the smaller table assigned to the
                                // same member set.
                                assert(nc == color);
                                assert(large_c.map()[nc] == res_small[hash]);
                            }
                        },
                        Err(e) => {
                            proof {
                                assert(Set::<u32>::empty().union(ids@.to_set()) =~= ids@.to_set());
                                lemma_reduce_collision_witness(
                                    small_h,
                                    small_c,
                                    lh0,
                                    lc0,
                                    cur_c,
                                    m_merge,
                                );
                            }
                            return Err(e);
                        },
                    }
                },
            }
            large_h.set_color(hash, nc);
            proof {
                assert(large_c.has_color(nc)) by {
                    assert(large_c.map().dom().contains(nc));
                }
                assert forall|x: u64| #[trigger] large_h.has_hash(x) && x != hash implies {
                    &&& large_h.map()[x] == cur_h.map()[x]
                    &&& large_c.map()[cur_h.map()[x]] == cur_c.map()[cur_h.map()[x]]
                    &&& large_c.has_color(cur_h.map()[x])
                } by {
                    assert(cur_h.has_hash(x));
                    let cx = cur_h.map()[x];
                    assert(cur_c.has_color(cx));
                    assert(cur_c.map().dom().contains(cx));
                    assert(large_c.map().dom().contains(cx));
                    if large_c.map()[cx] != cur_c.map()[cx] {
                        assert(false);
                    }
                }
                assert forall|x: u64| #[trigger] large_h.has_hash(x) implies large_c.map()[
                    large_h.map()[x]
                ] == merge_value(res_small, res_large, x, small_h.keys_upto(k as int + 1)) by {
                    if x == hash {
                        assert(large_h.map()[x] == nc);
                    } else {
                        assert(merge_value(res_small, res_large, x, small_h.keys_upto(k as int))
                            == merge_value(
                            res_small,
                            res_large,
                            x,
                            small_h.keys_upto(k as int + 1),
                        ));
                    }
                }
                assert forall|c: u64| #[trigger] large_c.has_color(c) implies in_reduce_family(
                    small_h,
                    small_c,
                    lh0,
                    lc0,
                    large_c.map()[c],
                ) by {
                    assert(large_c.map().dom().contains(c));
                    if c == nc {
                        assert(large_c.map()[nc] == m_merge);
                        assert(in_reduce_family(small_h, small_c, lh0, lc0, m_merge));
                    } else {
                        assert(cur_c.map().dom().contains(c));
                        assert(cur_c.has_color(c));
                        assert(large_c.map()[c] == cur_c.map()[c]);
                    }
                }
            }
            k = k + 1;
        }
        proof {
            let full = small_h.keys_upto(small_h.entries@.len() as int);
            assert forall|x: u64| res_small.dom().contains(x) implies full.contains(x) by {
                assert(small_h.has_hash(x));
                let i = choose|i: int|
                    0 <= i < small_h.entries@.len() && (#[trigger] small_h.entries@[i]).0 == x;
                assert(full.contains(x));
            }
            assert forall|x: u64| full.contains(x) implies res_small.dom().contains(x) by {
                let i = choose|i: int|
                    0 <= i < small_h.entries@.len() && (#[trigger] small_h.entries@[i]).0 == x;
                assert(small_h.has_hash(x));
            }
            assert(resolved(large_h, large_c) =~~= union_resolved(res_a, res_b)) by {
                assert forall|x: u64| resolved(large_h, large_c).dom().contains(x)
                    implies union_resolved(res_a, res_b).dom().contains(x) by {
                    assert(large_h.has_hash(x));
                }
                assert forall|x: u64| union_resolved(res_a, res_b).dom().contains(x)
                    implies resolved(large_h, large_c).dom().contains(x) by {
                    assert(large_h.has_hash(x));
                }
                assert forall|x: u64| resolved(large_h, large_c).dom().contains(x)
                    implies resolved(large_h, large_c)[x] =~= union_resolved(res_a, res_b)[x] by {
                    assert(large_h.has_hash(x));
                    assert(resolved(large_h, large_c)[x] == large_c.map()[large_h.map()[x]]);
                    assert(large_c.map()[large_h.map()[x]] == merge_value(
                        res_small,
                        res_large,
                        x,
                        full,
                    ));
                }
            }
        }
        Ok((large_h, large_c))
    }
}

/// The member set the merged pair maps a hash to, given which of the
/// smaller side's hashes have been folded in so far.
pub open spec fn merge_value(
    rs: Map<u64, Set<u32>>,
    rl: Map<u64, Set<u32>>,
    x: u64,
    done: Set<u64>,
) -> Set<u32> {
    if done.contains(x) && rl.dom().contains(x) {
        rl[x].union(rs[x])
    } else if done.contains(x) {
        rs[x]
    } else {
        rl[x]
    }
}


/// A mapping with a set of keys redirected to one member set; keys outside
/// the base domain become mapped.
pub open spec fn overridden(base: Map<u64, Set<u32>>, ks: Set<u64>, s: Set<u32>) -> Map<
    u64,
    Set<u32>,
> {
    Map::new(
        |k: u64| base.dom().contains(k) || ks.contains(k),
        |k: u64|
            if ks.contains(k) {
                s
            } else {
                base[k]
            },
    )
}

/// Whether every mapped color is allocated in the color table.
pub open spec fn linked(h: HashToColor, t: Colors) -> bool {
    forall|x: u64| h.has_hash(x) ==> t.has_color(#[trigger] h.map()[x])
}

/// The semantic content of a (mapping, color table) pair: each mapped hash
/// resolved to its member set of dataset indices.
pub open spec fn resolved(h: HashToColor, t: Colors) -> Map<u64, Set<u32>> {
    Map::new(|x: u64| h.has_hash(x), |x: u64| t.map()[h.map()[x]])
}

/// Pointwise union of two hash-to-member-set mappings.
pub open spec fn union_resolved(x: Map<u64, Set<u32>>, y: Map<u64, Set<u32>>) -> Map<
    u64,
    Set<u32>,
> {
    Map::new(
        |k: u64| x.dom().contains(k) || y.dom().contains(k),
        |k: u64|
            if x.dom().contains(k) && y.dom().contains(k) {
                x[k].union(y[k])
            } else if x.dom().contains(k) {
                x[k]
            } else {
                y[k]
            },
    )
}

/// The restriction of a mapping to a key set.
pub open spec fn restrict_keys(m: Map<u64, Set<u32>>, ks: Set<u64>) -> Map<u64, Set<u32>> {
    Map::new(|k: u64| m.dom().contains(k) && ks.contains(k), |k: u64| m[k])
}

} // verus!
