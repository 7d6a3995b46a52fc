//! The query engine's counting core: per-dataset overlap counts for a
//! query sketch, and the deterministically ranked match list derived from
//! them.

use crate::colors::Colors;
use crate::hash_to_color::{linked, resolved, HashToColor};
use vstd::prelude::*;

verus! {

/// Ephemeral per-query state: the overlap count for every dataset index,
/// built per query and discarded after use.
pub struct SigCounter {
    pub counts: Vec<u64>,
}

/// How many of the first `p` query hashes resolve to a member set
/// containing dataset `i`.
pub open spec fn overlap_count(m: Map<u64, Set<u32>>, q: Seq<u64>, i: u32) -> nat
    decreases q.len(),
{
    if q.len() == 0 {
        0
    } else {
        overlap_count(m, q.drop_last(), i) + if m.dom().contains(q.last()) && m[q.last()].contains(
            i,
        ) {
            1nat
        } else {
            0nat
        }
    }
}

/// Every index a mapping's member sets mention lies below `n`.
pub open spec fn bounded_mapping(m: Map<u64, Set<u32>>, n: int) -> bool {
    forall|h: u64, i: u32| m.dom().contains(h) && #[trigger] m[h].contains(i) ==> 0 <= i < n
}

/// Adds one to the count of every listed dataset index.
fn increment_members(counts: &mut Vec<u64>, ids: &Vec<u32>, limit: u64)
    requires
        crate::seqs::ascending(ids@),
        forall|q: int| 0 <= q < ids@.len() ==> (#[trigger] ids@[q]) < old(counts)@.len(),
        forall|i: int| 0 <= i < old(counts)@.len() ==> (#[trigger] old(counts)@[i]) <= limit,
        limit < u64::MAX,
    ensures
        final(counts)@.len() == old(counts)@.len(),
        forall|i: u32|
            0 <= i < final(counts)@.len() ==> #[trigger] final(counts)@[i as int] == old(
                counts,
            )@[i as int] + (if ids@.contains(i) {
                1int
            } else {
                0int
            }),
{
    let ghost mid = old(counts)@;
    let mut t: usize = 0;
    while t < ids.len()
        invariant
            crate::seqs::ascending(ids@),
            forall|q: int| 0 <= q < ids@.len() ==> (#[trigger] ids@[q]) < mid.len(),
            forall|i: int| 0 <= i < mid.len() ==> (#[trigger] mid[i]) <= limit,
            limit < u64::MAX,
            t <= ids@.len(),
            counts@.len() == mid.len(),
            forall|i: u32|
                0 <= i < mid.len() ==> #[trigger] counts@[i as int] == mid[i as int] + (
                if ids@.take(t as int).contains(i) {
                    1int
                } else {
                    0int
                }),
        decreases ids@.len() - t,
    {
        let idx = ids[t];
        proof {
            assert(!ids@.take(t as int).contains(idx)) by {
                if ids@.take(t as int).contains(idx) {
                    let q = choose|q: int| 0 <= q < t && #[trigger] ids@.take(t as int)[q] == idx;
                    assert(ids@[q] == idx);
                    assert(ids@[q] < ids@[t as int]);
                }
            }
            assert forall|i: u32| ids@.take(t as int + 1).contains(i) implies (i == idx
                || ids@.take(t as int).contains(i)) by {
                let q = choose|q: int| 0 <= q < t + 1 && #[trigger] ids@.take(t as int + 1)[q] == i;
                if q < t {
                    assert(ids@.take(t as int)[q] == i);
                }
            }
            assert forall|i: u32| ids@.take(t as int).contains(i) implies ids@.take(
                t as int + 1,
            ).contains(i) by {
                let q = choose|q: int| 0 <= q < t && #[trigger] ids@.take(t as int)[q] == i;
                assert(ids@.take(t as int + 1)[q] == i);
            }
            assert(ids@.take(t as int + 1).contains(idx)) by {
                assert(ids@.take(t as int + 1)[t as int] == idx);
            }
        }
        let cur = counts[idx as usize];
        counts.set(idx as usize, cur + 1);
        t = t + 1;
    }
    proof {
        assert(ids@.take(ids@.len() as int) =~= ids@);
    }
}

/// Builds the overlap counter for a query: for every query hash, its color
/// is resolved and every member dataset's count is incremented by one.
#[verifier::rlimit(60)]
pub fn counter_from(h2c: &HashToColor, colors: &Colors, query_mins: &Vec<u64>, n: usize) -> (r:
    SigCounter)
    requires
        h2c.wf(),
        colors.wf(),
        linked(*h2c, *colors),
        bounded_mapping(resolved(*h2c, *colors), n as int),
        n <= u32::MAX,
    ensures
        r.counts@.len() == n,
        forall|i: u32|
            0 <= i < n ==> #[trigger] r.counts@[i as int] == overlap_count(
                resolved(*h2c, *colors),
                query_mins@,
                i,
            ),
        forall|i: int| 0 <= i < n ==> #[trigger] r.counts@[i] <= query_mins@.len(),
{
    let ghost m = resolved(*h2c, *colors);
    let mut counts: Vec<u64> = Vec::new();
    let mut z: usize = 0;
    while z < n
        invariant
            z <= n,
            counts@.len() == z,
            forall|i: int| 0 <= i < z ==> #[trigger] counts@[i] == 0,
        decreases n - z,
    {
        counts.push(0);
        z = z + 1;
    }
    proof {
        assert(query_mins@.take(0) =~= Seq::<u64>::empty());
        assert forall|i: u32| 0 <= i < n implies overlap_count(m, query_mins@.take(0), i) == 0 by {}
    }
    let mut k: usize = 0;
    while k < query_mins.len()
        invariant
            h2c.wf(),
            colors.wf(),
            linked(*h2c, *colors),
            bounded_mapping(m, n as int),
            m == resolved(*h2c, *colors),
            n <= u32::MAX,
            k <= query_mins@.len(),
            counts@.len() == n,
            forall|i: u32|
                0 <= i < n ==> #[trigger] counts@[i as int] == overlap_count(
                    m,
                    query_mins@.take(k as int),
                    i,
                ),
            forall|i: u32| 0 <= i < n ==> #[trigger] counts@[i as int] <= k,
        decreases query_mins@.len() - k,
    {
        let h = query_mins[k];
        proof {
            assert(query_mins@.take(k as int + 1).drop_last() =~= query_mins@.take(k as int));
            assert(query_mins@.take(k as int + 1).last() == h);
        }
        match h2c.get(&h) {
            Some(c) => {
                proof {
                    assert(colors.has_color(c));
                    assert(m.dom().contains(h));
                    assert(m[h] == colors.map()[c]);
                }
                let ids = colors.indices(c);
                let ghost mid = counts@;
                proof {
                    assert forall|q: int| 0 <= q < ids@.len() implies (#[trigger] ids@[q])
                        < counts@.len() by {
                        assert(ids@.contains(ids@[q]));
                        assert(ids@.to_set().contains(ids@[q]));
                        assert(m[h].contains(ids@[q]));
                    }
                    assert(k < query_mins@.len());
                    assert forall|q: int| 0 <= q < counts@.len() implies (#[trigger] counts@[q])
                        <= k as u64 by {
                        assert(counts@[(q as u32) as int] <= k);
                    }
                }
                increment_members(&mut counts, &ids, k as u64);
                proof {
                    assert forall|i: u32| 0 <= i < n implies #[trigger] counts@[i as int]
                        == overlap_count(m, query_mins@.take(k as int + 1), i) by {
                        assert(ids@.contains(i) <==> ids@.to_set().contains(i));
                        assert(mid[i as int] == overlap_count(m, query_mins@.take(k as int), i));
                    }
                }
            },
            None => {
                proof {
                    assert(!m.dom().contains(h));
                    assert forall|i: u32| 0 <= i < n implies #[trigger] counts@[i as int]
                        == overlap_count(m, query_mins@.take(k as int + 1), i) by {}
                }
            },
        }
        k = k + 1;
    }
    proof {
        assert(query_mins@.take(query_mins@.len() as int) =~= query_mins@);
        assert forall|i: int| 0 <= i < n implies #[trigger] counts@[i] <= query_mins@.len() by {
            assert(counts@[(i as u32) as int] <= k);
        }
    }
    SigCounter { counts }
}

/// One gather round's record: the selected dataset and the integer
/// statistics of its match, from which consumers derive the fractional
/// statistics (match fraction, unique-to-query fraction, identity
/// estimate).
pub struct GatherResult {
    /// The selected dataset's display name.
    pub name: String,
    /// The selected dataset's index.
    pub dataset_id: u32,
    /// The selected dataset's own sketch size.
    pub match_size: usize,
    /// Hashes shared between the selected dataset's sketch and the
    /// original query.
    pub intersect_orig: u64,
    /// Remaining-query hashes claimed by this round.
    pub unique_count: u64,
    /// Remaining query weight after this round.
    pub remaining_count: u64,
    /// The scaling factor of the indexed sketches.
    pub scaled: u64,
    /// The original query's sketch size.
    pub orig_query_size: u64,
    /// Base pairs uniquely attributed this round: the claimed hashes at
    /// the sketch scale.
    pub unique_intersect_bp: u64,
    /// Base pairs still unattributed after this round.
    pub remaining_bp: u64,
}

impl GatherResult {
    /// The selected dataset's display name.
    pub fn name(&self) -> (r: &String)
        ensures
            r@ == self.name@,
    {
        &self.name
    }
}

/// The hash keys of a mapping, in their stored ascending order.
pub open spec fn keys_of(h: HashToColor) -> Seq<u64> {
    h.entries@.map_values(|p: (u64, u64)| p.0)
}

/// An overlap count never exceeds the number of hashes counted.
pub proof fn lemma_overlap_le_len(m: Map<u64, Set<u32>>, q: Seq<u64>, i: u32)
    ensures
        overlap_count(m, q, i) <= q.len(),
    decreases q.len(),
{
    if q.len() > 0 {
        lemma_overlap_le_len(m, q.drop_last(), i);
    }
}

/// Overlap counts over a prefix never exceed those over the whole.
pub proof fn lemma_overlap_prefix_mono(m: Map<u64, Set<u32>>, q: Seq<u64>, k: int, i: u32)
    requires
        0 <= k <= q.len(),
    ensures
        overlap_count(m, q.take(k), i) <= overlap_count(m, q, i),
    decreases q.len() - k,
{
    if k == q.len() {
        assert(q.take(k) =~= q);
    } else {
        lemma_overlap_prefix_mono(m, q, k + 1, i);
        assert(q.take(k + 1).drop_last() =~= q.take(k));
    }
}

/// Two mappings that agree on a hash sequence yield the same overlap
/// counts over it.
pub proof fn lemma_overlap_agree(m1: Map<u64, Set<u32>>, m2: Map<u64, Set<u32>>, q: Seq<u64>, i: u32)
    requires
        forall|j: int|
            0 <= j < q.len() ==> (m1.dom().contains(#[trigger] q[j]) <==> m2.dom().contains(q[j])),
        forall|j: int|
            0 <= j < q.len() && m1.dom().contains(#[trigger] q[j]) ==> m1[q[j]] == m2[q[j]],
    ensures
        overlap_count(m1, q, i) == overlap_count(m2, q, i),
    decreases q.len(),
{
    if q.len() > 0 {
        lemma_overlap_agree(m1, m2, q.drop_last(), i);
        assert(q[q.len() - 1] == q.last());
    }
}

/// No member of `done` occurs in `s`.
pub open spec fn sets_disjoint(s: Set<u32>, done: Set<u32>) -> bool {
    forall|j: u32| #[trigger] done.contains(j) ==> !s.contains(j)
}

/// The overlap counts once the datasets in `done` have claimed their
/// hashes: only query hashes whose member set avoids every dataset in
/// `done` still count.
pub open spec fn overlap_count_outside(
    m: Map<u64, Set<u32>>,
    q: Seq<u64>,
    i: u32,
    done: Set<u32>,
) -> nat
    decreases q.len(),
{
    if q.len() == 0 {
        0
    } else {
        overlap_count_outside(m, q.drop_last(), i, done) + if m.dom().contains(q.last())
            && m[q.last()].contains(i) && sets_disjoint(m[q.last()], done) {
            1nat
        } else {
            0nat
        }
    }
}

/// A dataset that has already claimed its hashes counts nothing: every
/// surviving hash's member set avoids it.
pub proof fn lemma_overlap_outside_done(m: Map<u64, Set<u32>>, q: Seq<u64>, e: u32, done: Set<u32>)
    requires
        done.contains(e),
    ensures
        overlap_count_outside(m, q, e, done) == 0,
    decreases q.len(),
{
    if q.len() > 0 {
        lemma_overlap_outside_done(m, q.drop_last(), e, done);
    }
}

/// Whether a hash's member set survives the claims of `done`.
pub open spec fn surviving(m: Map<u64, Set<u32>>, x: u64, done: Set<u32>) -> bool {
    m.dom().contains(x) && sets_disjoint(m[x], done)
}

/// The subsequence of a key sequence whose member sets survive the claims
/// of `done`.
pub open spec fn filter_surviving(m: Map<u64, Set<u32>>, b: Seq<u64>, done: Set<u32>) -> Seq<u64>
    decreases b.len(),
{
    if b.len() == 0 {
        Seq::empty()
    } else if surviving(m, b.last(), done) {
        filter_surviving(m, b.drop_last(), done).push(b.last())
    } else {
        filter_surviving(m, b.drop_last(), done)
    }
}

/// The filtered sequence holds exactly the surviving keys.
pub proof fn lemma_filter_surviving_membership(
    m: Map<u64, Set<u32>>,
    b: Seq<u64>,
    done: Set<u32>,
    x: u64,
)
    ensures
        filter_surviving(m, b, done).contains(x) <==> (b.contains(x) && surviving(m, x, done)),
    decreases b.len(),
{
    if b.len() > 0 {
        let b2 = b.drop_last();
        lemma_filter_surviving_membership(m, b2, done, x);
        let f2 = filter_surviving(m, b2, done);
        assert(b.contains(x) <==> (b2.contains(x) || x == b.last())) by {
            if b.contains(x) {
                let v = choose|v: int| 0 <= v < b.len() && b[v] == x;
                if v < b.len() - 1 {
                    assert(b2[v] == x);
                    assert(b2.contains(x));
                }
            }
            if b2.contains(x) {
                let v = choose|v: int| 0 <= v < b2.len() && b2[v] == x;
                assert(b[v] == x);
            }
            assert(b[b.len() - 1] == b.last());
        }
        if surviving(m, b.last(), done) {
            let f = f2.push(b.last());
            assert(f.contains(x) <==> (f2.contains(x) || x == b.last())) by {
                if f.contains(x) {
                    let v = choose|v: int| 0 <= v < f.len() && f[v] == x;
                    if v < f.len() - 1 {
                        assert(f2[v] == x);
                        assert(f2.contains(x));
                    }
                }
                if f2.contains(x) {
                    let v = choose|v: int| 0 <= v < f2.len() && f2[v] == x;
                    assert(f[v] == x);
                }
                assert(f[f.len() - 1] == b.last());
            }
        }
    }
}

/// Filtering preserves strict ascending order.
pub proof fn lemma_filter_surviving_ascending(m: Map<u64, Set<u32>>, b: Seq<u64>, done: Set<u32>)
    requires
        crate::seqs::ascending64(b),
    ensures
        crate::seqs::ascending64(filter_surviving(m, b, done)),
    decreases b.len(),
{
    if b.len() > 0 {
        let b2 = b.drop_last();
        assert(crate::seqs::ascending64(b2));
        lemma_filter_surviving_ascending(m, b2, done);
        let f2 = filter_surviving(m, b2, done);
        if surviving(m, b.last(), done) {
            assert forall|q: int| 0 <= q < f2.len() implies f2[q] < b.last() by {
                assert(f2.contains(f2[q]));
                lemma_filter_surviving_membership(m, b2, done, f2[q]);
                let v = choose|v: int| 0 <= v < b2.len() && b2[v] == f2[q];
                assert(b[v] == f2[q]);
                assert(b[v] < b[b.len() - 1]);
            }
            let f = f2.push(b.last());
            assert forall|p: int, q: int| 0 <= p < q < f.len() implies f[p] < f[q] by {
                if q < f.len() - 1 {
                    assert(f2[p] < f2[q]);
                } else {
                    assert(f[p] == f2[p]);
                }
            }
        }
    }
}

/// Counting over the surviving keys with an agreeing mapping equals the
/// outside-count over all keys.
pub proof fn lemma_overlap_filter(
    ma: Map<u64, Set<u32>>,
    m: Map<u64, Set<u32>>,
    b: Seq<u64>,
    i: u32,
    done: Set<u32>,
)
    requires
        forall|k: int|
            0 <= k < b.len() ==> (surviving(m, #[trigger] b[k], done) ==> (ma.dom().contains(b[k])
                && ma[b[k]] == m[b[k]])),
    ensures
        overlap_count(ma, filter_surviving(m, b, done), i) == overlap_count_outside(m, b, i, done),
    decreases b.len(),
{
    if b.len() > 0 {
        let b2 = b.drop_last();
        assert forall|k: int|
            0 <= k < b2.len() implies (surviving(m, #[trigger] b2[k], done) ==> (ma.dom().contains(
            b2[k],
        ) && ma[b2[k]] == m[b2[k]])) by {
            assert(b2[k] == b[k]);
        }
        lemma_overlap_filter(ma, m, b2, i, done);
        if surviving(m, b.last(), done) {
            let f2 = filter_surviving(m, b2, done);
            let f = f2.push(b.last());
            assert(f.drop_last() =~= f2);
            assert(f.last() == b.last());
            assert(b[b.len() - 1] == b.last());
        }
    }
}

/// The hash keys of a mapping are strictly ascending.
pub proof fn lemma_keys_of_ascending(h: HashToColor)
    requires
        h.wf(),
    ensures
        crate::seqs::ascending64(keys_of(h)),
        keys_of(h).len() == h.entries@.len(),
        forall|x: u64| #[trigger] keys_of(h).contains(x) <==> h.has_hash(x),
{
    assert forall|p: int, q: int| 0 <= p < q < keys_of(h).len() implies keys_of(h)[p] < keys_of(
        h,
    )[q] by {
        assert(keys_of(h)[p] == h.entries@[p].0);
        assert(keys_of(h)[q] == h.entries@[q].0);
    }
    assert forall|x: u64| #[trigger] keys_of(h).contains(x) implies h.has_hash(x) by {
        let v = choose|v: int| 0 <= v < keys_of(h).len() && keys_of(h)[v] == x;
        assert(h.entries@[v].0 == x);
    }
    assert forall|x: u64| h.has_hash(x) implies #[trigger] keys_of(h).contains(x) by {
        let v = choose|v: int| 0 <= v < h.entries@.len() && (#[trigger] h.entries@[v]).0 == x;
        assert(keys_of(h)[v] == x);
    }
}

/// The overlap counts of a pair whose hashes are exactly the survivors of
/// a claim set — resolving as the original mapping did — equal the
/// outside-counts over the original keys.
pub proof fn lemma_counts_outside(
    h: HashToColor,
    qc: Colors,
    m0: Map<u64, Set<u32>>,
    keys0: Seq<u64>,
    done: Set<u32>,
    i: u32,
)
    requires
        h.wf(),
        crate::seqs::ascending64(keys0),
        forall|x: u64|
            #[trigger] h.has_hash(x) <==> (m0.dom().contains(x) && sets_disjoint(m0[x], done)),
        forall|x: u64| #[trigger] h.has_hash(x) ==> resolved(h, qc)[x] == m0[x],
        forall|x: u64| #[trigger] m0.dom().contains(x) <==> keys0.contains(x),
    ensures
        overlap_count(resolved(h, qc), keys_of(h), i) == overlap_count_outside(m0, keys0, i, done),
{
    let a = keys_of(h);
    let f = filter_surviving(m0, keys0, done);
    lemma_keys_of_ascending(h);
    lemma_filter_surviving_ascending(m0, keys0, done);
    assert forall|x: u64| #[trigger] a.contains(x) <==> f.contains(x) by {
        lemma_filter_surviving_membership(m0, keys0, done, x);
        if a.contains(x) {
            assert(h.has_hash(x));
            assert(surviving(m0, x, done));
            assert(keys0.contains(x));
        }
        if f.contains(x) {
            assert(surviving(m0, x, done));
            assert(h.has_hash(x));
        }
    }
    assert(a.to_set() =~= f.to_set());
    crate::seqs::lemma_ascending64_unique(a, f);
    assert forall|k: int|
        0 <= k < keys0.len() implies (surviving(m0, #[trigger] keys0[k], done) ==> (resolved(
        h,
        qc,
    ).dom().contains(keys0[k]) && resolved(h, qc)[keys0[k]] == m0[keys0[k]])) by {
        let x = keys0[k];
        if surviving(m0, x, done) {
            assert(keys0.contains(x));
            assert(h.has_hash(x));
            assert(resolved(h, qc).dom().contains(x));
        }
    }
    lemma_overlap_filter(resolved(h, qc), m0, keys0, i, done);
}

/// Dataset `i` is the deterministic greedy choice: its count is nonzero,
/// no count is larger, and no equal count sits at a smaller index.
pub open spec fn is_best(counts: Seq<u64>, i: u32) -> bool {
    &&& 0 <= i < counts.len()
    &&& counts[i as int] >= 1
    &&& forall|j: int|
        0 <= j < counts.len() ==> (#[trigger] counts[j] < counts[i as int] || (counts[j]
            == counts[i as int] && i <= j))
}

/// The greedy selection: the index with the maximum count, ties broken by
/// ascending index; `None` when every count is zero.
pub fn best_index(counts: &Vec<u64>) -> (r: Option<(u32, u64)>)
    requires
        counts@.len() <= u32::MAX,
    ensures
        match r {
            Some(p) => p.0 < counts@.len() && p.1 == counts@[p.0 as int] && is_best(counts@, p.0),
            None => forall|j: int| 0 <= j < counts@.len() ==> #[trigger] counts@[j] == 0,
        },
{
    let mut best: Option<(u32, u64)> = None;
    let mut j: usize = 0;
    while j < counts.len()
        invariant
            counts@.len() <= u32::MAX,
            j <= counts@.len(),
            match best {
                Some(p) => {
                    &&& p.0 < j
                    &&& p.1 == counts@[p.0 as int]
                    &&& p.1 >= 1
                    &&& forall|q: int|
                        0 <= q < j ==> (#[trigger] counts@[q] < p.1 || (counts@[q] == p.1 && p.0
                            <= q))
                },
                None => forall|q: int| 0 <= q < j ==> #[trigger] counts@[q] == 0,
            },
        decreases counts@.len() - j,
    {
        let c = counts[j];
        let replace = match best {
            Some(p) => c > p.1,
            None => c >= 1,
        };
        if replace {
            best = Some((j as u32, c));
        }
        j = j + 1;
    }
    best
}

/// How many hashes of `a` also occur in `b`.
pub open spec fn shared_count(a: Seq<u64>, b: Seq<u64>) -> nat
    decreases a.len(),
{
    if a.len() == 0 {
        0
    } else {
        shared_count(a.drop_last(), b) + if b.contains(a.last()) {
            1nat
        } else {
            0nat
        }
    }
}

/// Linear membership scan.
fn contains64(v: &Vec<u64>, x: u64) -> (r: bool)
    ensures
        r == v@.contains(x),
{
    let mut j: usize = 0;
    while j < v.len()
        invariant
            j <= v@.len(),
            forall|q: int| 0 <= q < j ==> v@[q] != x,
        decreases v@.len() - j,
    {
        if v[j] == x {
            proof {
                assert(v@[j as int] == x);
            }
            return true;
        }
        j = j + 1;
    }
    proof {
        if v@.contains(x) {
            let q = choose|q: int| 0 <= q < v@.len() && v@[q] == x;
        }
    }
    false
}

/// Counts the hashes of `a` that also occur in `b`.
pub fn shared_count_exec(a: &Vec<u64>, b: &Vec<u64>) -> (r: u64)
    requires
        a@.len() <= u64::MAX,
    ensures
        r == shared_count(a@, b@),
        r <= a@.len(),
{
    let mut cnt: u64 = 0;
    let mut k: usize = 0;
    while k < a.len()
        invariant
            k <= a@.len(),
            a@.len() <= u64::MAX,
            cnt == shared_count(a@.take(k as int), b@),
            cnt <= k,
        decreases a@.len() - k,
    {
        proof {
            assert(a@.take(k as int + 1).drop_last() =~= a@.take(k as int));
            assert(a@.take(k as int + 1).last() == a@[k as int]);
        }
        if contains64(b, a[k]) {
            cnt = cnt + 1;
        }
        k = k + 1;
    }
    proof {
        assert(a@.take(a@.len() as int) =~= a@);
    }
    cnt
}

/// Removes every mapped hash whose member set contains the selected
/// dataset, and lowers the counts of all members of each removed hash's
/// set by one — the state change of one gather round.
#[verifier::rlimit(100)]
pub fn remove_claimed(
    h2c: HashToColor,
    qc: &Colors,
    counts: &mut Vec<u64>,
    selected: u32,
) -> (r: HashToColor)
    requires
        h2c.wf(),
        qc.wf(),
        linked(h2c, *qc),
        bounded_mapping(resolved(h2c, *qc), old(counts)@.len() as int),
        old(counts)@.len() <= u32::MAX,
        forall|i: u32|
            0 <= i < old(counts)@.len() ==> #[trigger] old(counts)@[i as int] == overlap_count(
                resolved(h2c, *qc),
                keys_of(h2c),
                i,
            ),
    ensures
        r.wf(),
        linked(r, *qc),
        final(counts)@.len() == old(counts)@.len(),
        forall|i: u32|
            0 <= i < final(counts)@.len() ==> #[trigger] final(counts)@[i as int] == overlap_count(
                resolved(r, *qc),
                keys_of(r),
                i,
            ),
        0 <= selected < old(counts)@.len() ==> r.entries@.len() + old(counts)@[selected as int]
            == h2c.entries@.len(),
        r.entries@.len() <= h2c.entries@.len(),
        forall|x: u64|
            #[trigger] r.has_hash(x) ==> (h2c.has_hash(x) && r.map()[x] == h2c.map()[x]),
        forall|x: u64|
            #[trigger] r.has_hash(x) <==> (h2c.has_hash(x) && !resolved(h2c, *qc)[x].contains(
                selected,
            )),
    {
        let ghost m = resolved(h2c, *qc);
        let ghost keys = keys_of(h2c);
        let mut kept: Vec<(u64, u64)> = Vec::new();
        let mut t: usize = 0;
        proof {
            assert(keys.take(0) =~= Seq::<u64>::empty());
            assert forall|i: u32| 0 <= i < counts@.len() implies overlap_count(
                m,
                keys.take(0),
                i,
            ) == 0 && overlap_count(m, kept@.map_values(|p: (u64, u64)| p.0), i) == 0 by {}
        }
        while t < h2c.entries.len()
            invariant
                m == resolved(h2c, *qc),
                keys == keys_of(h2c),
                h2c.wf(),
                qc.wf(),
                linked(h2c, *qc),
                bounded_mapping(m, counts@.len() as int),
                counts@.len() <= u32::MAX,
                t <= h2c.entries@.len(),
                counts@.len() == old(counts)@.len(),
                forall|q: int|
                    0 <= q < kept@.len() ==> exists|w: int|
                        0 <= w < t && (#[trigger] kept@[q]) == h2c.entries@[w],
                forall|p: int, q: int|
                    0 <= p < q < kept@.len() ==> (#[trigger] kept@[p]).0 < (#[trigger] kept@[q]).0,
                kept@.len() > 0 && t < h2c.entries@.len() ==> kept@.last().0
                    < h2c.entries@[t as int].0,
                forall|i: u32|
                    0 <= i < counts@.len() ==> #[trigger] counts@[i as int] + overlap_count(
                        m,
                        keys.take(t as int),
                        i,
                    ) == overlap_count(m, keys, i) + overlap_count(
                        m,
                        kept@.map_values(|p: (u64, u64)| p.0),
                        i,
                    ),
                forall|q: int|
                    0 <= q < kept@.len() ==> !(m[(#[trigger] kept@[q]).0].contains(selected)),
                forall|w: int|
                    0 <= w < t && !(m[(#[trigger] h2c.entries@[w]).0].contains(selected))
                        ==> exists|q: int| 0 <= q < kept@.len() && kept@[q] == h2c.entries@[w],
                0 <= selected < counts@.len() ==> kept@.len() + overlap_count(
                    m,
                    keys.take(t as int),
                    selected,
                ) == t,
                kept@.len() <= t,
            decreases h2c.entries@.len() - t,
        {
            let (hash, color) = h2c.entries[t];
            proof {
                h2c.lemma_lookup(t as int);
                assert(keys[t as int] == hash);
                assert(keys.take(t as int + 1).drop_last() =~= keys.take(t as int));
                assert(keys.take(t as int + 1).last() == hash);
                assert(m.dom().contains(hash));
                assert(m[hash] == qc.map()[color]);
            }
            let ids = qc.indices(color);
            let claimed = contains32(&ids, selected);
            proof {
                assert(ids@.to_set().contains(selected) <==> ids@.contains(selected));
                assert(claimed == m[hash].contains(selected));
            }
            if claimed {
                // Drop the hash and lower every member's count.
                proof {
                    assert forall|i: u32| 0 <= i < counts@.len() && m[hash].contains(i)
                        implies #[trigger] counts@[i as int] >= 1 by {
                        lemma_overlap_prefix_mono(m, keys, t as int + 1, i);
                        lemma_overlap_le_len(
                            m,
                            kept@.map_values(|p: (u64, u64)| p.0),
                            i,
                        );
                    }
                    assert forall|q: int| 0 <= q < ids@.len() implies (#[trigger] ids@[q])
                        < counts@.len() by {
                        assert(ids@.contains(ids@[q]));
                        assert(ids@.to_set().contains(ids@[q]));
                        assert(m[hash].contains(ids@[q]));
                    }
                }
                decrement_members(counts, &ids);
            } else {
                let ghost old_kept = kept@;
                kept.push((hash, color));
                proof {
                    assert(kept@.drop_last() =~= old_kept);
                    assert(kept@.map_values(|p: (u64, u64)| p.0).drop_last() =~= old_kept.map_values(
                        |p: (u64, u64)| p.0,
                    ));
                    assert(kept@.map_values(|p: (u64, u64)| p.0).last() == hash);
                    assert forall|q: int| 0 <= q < kept@.len() implies exists|w: int|
                        0 <= w < t + 1 && (#[trigger] kept@[q]) == h2c.entries@[w] by {
                        if q < old_kept.len() {
                            assert(kept@[q] == old_kept[q]);
                        } else {
                            assert(kept@[q] == h2c.entries@[t as int]);
                        }
                    }
                }
            }
            t = t + 1;
        }
        proof {
            assert(keys.take(keys.len() as int) =~= keys);
        }
        let r = HashToColor { entries: kept };
        proof {
            assert(r.wf());
            assert forall|x: u64| #[trigger] r.has_hash(x) implies (h2c.has_hash(x) && r.map()[x]
                == h2c.map()[x]) by {
                let q = choose|q: int| 0 <= q < r.entries@.len() && (#[trigger] r.entries@[q]).0 == x;
                let w = choose|w: int| 0 <= w < h2c.entries@.len() && r.entries@[q] == h2c.entries@[w];
                assert(h2c.entries@[w].0 == x);
                r.lemma_lookup(q);
                h2c.lemma_lookup(w);
            }
            assert(linked(r, *qc)) by {
                assert forall|x: u64| r.has_hash(x) implies qc.has_color(#[trigger] r.map()[x]) by {
                    assert(h2c.has_hash(x));
                    assert(r.map()[x] == h2c.map()[x]);
                }
            }
            assert forall|x: u64| #[trigger] r.has_hash(x) <==> (h2c.has_hash(x) && !resolved(
                h2c,
                *qc,
            )[x].contains(selected)) by {
                if r.has_hash(x) {
                    assert(h2c.has_hash(x));
                    let q = choose|q: int|
                        0 <= q < r.entries@.len() && (#[trigger] r.entries@[q]).0 == x;
                    assert(!(m[kept@[q].0].contains(selected)));
                    assert(resolved(h2c, *qc)[x] == m[x]);
                }
                if h2c.has_hash(x) && !resolved(h2c, *qc)[x].contains(selected) {
                    let w = choose|w: int|
                        0 <= w < h2c.entries@.len() && (#[trigger] h2c.entries@[w]).0 == x;
                    assert(resolved(h2c, *qc)[x] == m[x]);
                    assert(!(m[h2c.entries@[w].0].contains(selected)));
                    let q = choose|q: int|
                        0 <= q < kept@.len() && kept@[q] == h2c.entries@[w];
                    assert(r.entries@[q].0 == x);
                    assert(r.has_hash(x));
                }
            }
            assert forall|i: u32| 0 <= i < counts@.len() implies #[trigger] counts@[i as int]
                == overlap_count(resolved(r, *qc), keys_of(r), i) by {
                assert(counts@[i as int] == overlap_count(
                    m,
                    kept@.map_values(|p: (u64, u64)| p.0),
                    i,
                ));
                lemma_overlap_agree(
                    m,
                    resolved(r, *qc),
                    kept@.map_values(|p: (u64, u64)| p.0),
                    i,
                );
            }
        }
        r
    }

/// Linear membership scan over indices.
fn contains32(v: &Vec<u32>, x: u32) -> (r: bool)
    ensures
        r == v@.contains(x),
{
    let mut j: usize = 0;
    while j < v.len()
        invariant
            j <= v@.len(),
            forall|q: int| 0 <= q < j ==> v@[q] != x,
        decreases v@.len() - j,
    {
        if v[j] == x {
            proof {
                assert(v@[j as int] == x);
            }
            return true;
        }
        j = j + 1;
    }
    proof {
        if v@.contains(x) {
            let q = choose|q: int| 0 <= q < v@.len() && v@[q] == x;
        }
    }
    false
}

/// Lowers the count of every listed dataset index by one.
fn decrement_members(counts: &mut Vec<u64>, ids: &Vec<u32>)
    requires
        crate::seqs::ascending(ids@),
        forall|q: int| 0 <= q < ids@.len() ==> (#[trigger] ids@[q]) < old(counts)@.len(),
        forall|i: u32|
            0 <= i < old(counts)@.len() && ids@.contains(i) ==> #[trigger] old(counts)@[i as int]
                >= 1,
    ensures
        final(counts)@.len() == old(counts)@.len(),
        forall|i: u32|
            0 <= i < final(counts)@.len() ==> #[trigger] final(counts)@[i as int] + (
            if ids@.contains(i) {
                1int
            } else {
                0int
            }) == old(counts)@[i as int],
{
    let ghost mid = old(counts)@;
    let mut t: usize = 0;
    while t < ids.len()
        invariant
            crate::seqs::ascending(ids@),
            forall|q: int| 0 <= q < ids@.len() ==> (#[trigger] ids@[q]) < mid.len(),
            forall|i: u32| 0 <= i < mid.len() && ids@.contains(i) ==> #[trigger] mid[i as int] >= 1,
            t <= ids@.len(),
            counts@.len() == mid.len(),
            forall|i: u32|
                0 <= i < mid.len() ==> #[trigger] counts@[i as int] + (
                if ids@.take(t as int).contains(i) {
                    1int
                } else {
                    0int
                }) == mid[i as int],
        decreases ids@.len() - t,
    {
        let idx = ids[t];
        proof {
            assert(ids@.contains(idx)) by {
                assert(ids@[t as int] == idx);
            }
            assert(!ids@.take(t as int).contains(idx)) by {
                if ids@.take(t as int).contains(idx) {
                    let q = choose|q: int| 0 <= q < t && #[trigger] ids@.take(t as int)[q] == idx;
                    assert(ids@[q] == idx);
                    assert(ids@[q] < ids@[t as int]);
                }
            }
            assert forall|i: u32| ids@.take(t as int + 1).contains(i) implies (i == idx
                || ids@.take(t as int).contains(i)) by {
                let q = choose|q: int| 0 <= q < t + 1 && #[trigger] ids@.take(t as int + 1)[q] == i;
                if q < t {
                    assert(ids@.take(t as int)[q] == i);
                }
            }
            assert forall|i: u32| ids@.take(t as int).contains(i) implies ids@.take(
                t as int + 1,
            ).contains(i) by {
                let q = choose|q: int| 0 <= q < t && #[trigger] ids@.take(t as int)[q] == i;
                assert(ids@.take(t as int + 1)[q] == i);
            }
            assert(ids@.take(t as int + 1).contains(idx)) by {
                assert(ids@.take(t as int + 1)[t as int] == idx);
            }
        }
        let cur = counts[idx as usize];
        counts.set(idx as usize, cur - 1);
        t = t + 1;
    }
    proof {
        assert(ids@.take(ids@.len() as int) =~= ids@);
    }
}

/// The ranked match list: every dataset whose count reaches the threshold
/// (and is nonzero), ordered by count descending with ties broken by
/// ascending dataset index, each with its count. The three clauses pin the
/// output uniquely: entries qualify and carry their true count, the order
/// is strict, and every qualifying dataset appears.
pub fn ranked_from_counts(counts: &Vec<u64>, threshold: u64) -> (r: Vec<(u32, u64)>)
    requires
        counts@.len() <= u32::MAX,
    ensures
        forall|k: int|
            0 <= k < r@.len() ==> ((#[trigger] r@[k]).0 < counts@.len() && r@[k].1 == counts@[
                r@[k].0 as int
            ] && r@[k].1 >= threshold && r@[k].1 >= 1),
        forall|k: int, l: int|
            0 <= k < l < r@.len() ==> ((#[trigger] r@[k]).1 > (#[trigger] r@[l]).1 || (r@[k].1
                == r@[l].1 && r@[k].0 < r@[l].0)),
        forall|i: u32|
            0 <= i < counts@.len() && #[trigger] counts@[i as int] >= threshold && counts@[
                i as int
            ] >= 1 ==> exists|k: int| 0 <= k < r@.len() && (#[trigger] r@[k]).0 == i,
{
    let mut r: Vec<(u32, u64)> = Vec::new();
    let mut i: usize = 0;
    while i < counts.len()
        invariant
            counts@.len() <= u32::MAX,
            i <= counts@.len(),
            forall|k: int|
                0 <= k < r@.len() ==> ((#[trigger] r@[k]).0 < i && r@[k].1 == counts@[
                    r@[k].0 as int
                ] && r@[k].1 >= threshold && r@[k].1 >= 1),
            forall|k: int, l: int|
                0 <= k < l < r@.len() ==> ((#[trigger] r@[k]).1 > (#[trigger] r@[l]).1 || (r@[k].1
                    == r@[l].1 && r@[k].0 < r@[l].0)),
            forall|j: u32|
                0 <= j < i && #[trigger] counts@[j as int] >= threshold && counts@[j as int] >= 1
                    ==> exists|k: int| 0 <= k < r@.len() && (#[trigger] r@[k]).0 == j,
        decreases counts@.len() - i,
    {
        let c = counts[i];
        if c >= threshold && c >= 1 {
            let ghost before = r@;
            // Find the insertion point: after every entry with a count at
            // least as large (equal counts keep the smaller index first).
            let mut p: usize = 0;
            while p < r.len() && r[p].1 >= c
                invariant
                    r@ == before,
                    p <= r@.len(),
                    forall|k: int| 0 <= k < p ==> (#[trigger] r@[k]).1 >= c,
                decreases r@.len() - p,
            {
                p = p + 1;
            }
            r.insert(p, (i as u32, c));
            proof {
                assert(forall|k: int| 0 <= k < p ==> r@[k] == (#[trigger] before[k]));
                assert(forall|k: int|
                    p < k < r@.len() ==> r@[k] == (#[trigger] before[k - 1]));
                assert(r@[p as int] == (i as u32, c));
                assert forall|j: u32|
                    0 <= j < i + 1 && #[trigger] counts@[j as int] >= threshold && counts@[j as int]
                        >= 1 implies exists|k: int| 0 <= k < r@.len() && (#[trigger] r@[k]).0
                    == j by {
                    if j == i as u32 {
                        assert(r@[p as int].0 == j);
                    } else {
                        let k = choose|k: int| 0 <= k < before.len() && (#[trigger] before[k]).0 == j;
                        if k < p {
                            assert(r@[k].0 == j);
                        } else {
                            assert(r@[k + 1].0 == j);
                        }
                    }
                }
                assert forall|k: int, l: int| 0 <= k < l < r@.len() implies ((#[trigger] r@[k]).1
                    > (#[trigger] r@[l]).1 || (r@[k].1 == r@[l].1 && r@[k].0 < r@[l].0)) by {
                    if k == p {
                        assert(r@[l] == before[l - 1]);
                        assert(before[l - 1].1 < c);
                    } else if l == p {
                        assert(r@[k] == before[k]);
                        assert(before[k].1 >= c);
                        assert(before[k].0 < i);
                    }
                }
            }
        }
        i = i + 1;
    }
    r
}

} // verus!
