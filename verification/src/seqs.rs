//! Ordered-sequence utilities shared by the compact index sets and the
//! hash-to-color mappings: strict ascending order, its relation to sets,
//! and a verified merge of two ascending vectors.

use vstd::prelude::*;

verus! {

/// A sequence of indices is strictly ascending (sorted and deduplicated).
pub open spec fn ascending(s: Seq<u32>) -> bool {
    forall|i: int, j: int| 0 <= i < j < s.len() ==> s[i] < s[j]
}

/// A sequence of hash values is strictly ascending.
pub open spec fn ascending64(s: Seq<u64>) -> bool {
    forall|i: int, j: int| 0 <= i < j < s.len() ==> s[i] < s[j]
}

/// A strictly ascending sequence has no duplicate elements.
pub proof fn lemma_ascending_no_duplicates(s: Seq<u32>)
    requires
        ascending(s),
    ensures
        s.no_duplicates(),
{
    assert forall|i: int, j: int|
        0 <= i < s.len() && 0 <= j < s.len() && i != j implies s[i] != s[j] by {
        if i < j {
            assert(s[i] < s[j]);
        } else {
            assert(s[j] < s[i]);
        }
    }
}

/// The member set of a strictly ascending sequence has exactly as many
/// elements as the sequence.
pub proof fn lemma_ascending_set_len(s: Seq<u32>)
    requires
        ascending(s),
    ensures
        s.to_set().finite(),
        s.to_set().len() == s.len(),
{
    broadcast use vstd::seq_lib::seq_to_set_is_finite;

    lemma_ascending_no_duplicates(s);
    s.unique_seq_to_set();
}

/// Two strictly ascending sequences with the same member set are equal:
/// a set of indices has exactly one sorted, deduplicated spelling.
pub proof fn lemma_ascending_unique(a: Seq<u32>, b: Seq<u32>)
    requires
        ascending(a),
        ascending(b),
        a.to_set() == b.to_set(),
    ensures
        a == b,
    decreases a.len(),
{
    broadcast use vstd::seq_lib::group_seq_properties;

    if a.len() == 0 {
        if b.len() > 0 {
            assert(b.to_set().contains(b[0]));
            assert(a.contains(b[0]));
        }
        assert(a =~= b);
    } else if b.len() == 0 {
        assert(a.to_set().contains(a[0]));
        assert(b.contains(a[0]));
    } else {
        // The heads are the minima of the (equal) sets, hence equal.
        assert(b.to_set().contains(b[0]));
        assert(a.contains(b[0]));
        let i = choose|i: int| 0 <= i < a.len() && a[i] == b[0];
        assert(a[0] <= a[i]);
        assert(a.to_set().contains(a[0]));
        assert(b.contains(a[0]));
        let j = choose|j: int| 0 <= j < b.len() && b[j] == a[0];
        assert(b[0] <= b[j]);
        assert(a[0] == b[0]);
        // The tails carry the set minus the head.
        assert(a.drop_first().to_set() =~= a.to_set().remove(a[0])) by {
            assert forall|x: u32| a.drop_first().to_set().contains(x)
                implies a.to_set().remove(a[0]).contains(x) by {
                let k = choose|k: int| 0 <= k < a.drop_first().len() && a.drop_first()[k] == x;
                assert(a[k + 1] == x);
                assert(a[0] < a[k + 1]);
                assert(a.contains(x));
            }
            assert forall|x: u32| a.to_set().remove(a[0]).contains(x)
                implies a.drop_first().to_set().contains(x) by {
                let k = choose|k: int| 0 <= k < a.len() && a[k] == x;
                assert(k != 0);
                assert(a.drop_first()[k - 1] == x);
                assert(a.drop_first().contains(x));
            }
        }
        assert(b.drop_first().to_set() =~= b.to_set().remove(b[0])) by {
            assert forall|x: u32| b.drop_first().to_set().contains(x)
                implies b.to_set().remove(b[0]).contains(x) by {
                let k = choose|k: int| 0 <= k < b.drop_first().len() && b.drop_first()[k] == x;
                assert(b[k + 1] == x);
                assert(b[0] < b[k + 1]);
                assert(b.contains(x));
            }
            assert forall|x: u32| b.to_set().remove(b[0]).contains(x)
                implies b.drop_first().to_set().contains(x) by {
                let k = choose|k: int| 0 <= k < b.len() && b[k] == x;
                assert(k != 0);
                assert(b.drop_first()[k - 1] == x);
                assert(b.drop_first().contains(x));
            }
        }
        lemma_ascending_unique(a.drop_first(), b.drop_first());
        assert(a =~= Seq::empty().push(a.first()) + a.drop_first());
        assert(b =~= Seq::empty().push(b.first()) + b.drop_first());
        assert(a =~= b);
    }
}

/// Two strictly ascending hash sequences with the same member set are
/// equal.
pub proof fn lemma_ascending64_unique(a: Seq<u64>, b: Seq<u64>)
    requires
        ascending64(a),
        ascending64(b),
        a.to_set() == b.to_set(),
    ensures
        a == b,
    decreases a.len(),
{
    broadcast use vstd::seq_lib::group_seq_properties;

    if a.len() == 0 {
        if b.len() > 0 {
            assert(b.to_set().contains(b[0]));
            assert(a.contains(b[0]));
        }
        assert(a =~= b);
    } else if b.len() == 0 {
        assert(a.to_set().contains(a[0]));
        assert(b.contains(a[0]));
    } else {
        assert(b.to_set().contains(b[0]));
        assert(a.contains(b[0]));
        let i = choose|i: int| 0 <= i < a.len() && a[i] == b[0];
        assert(a[0] <= a[i]);
        assert(a.to_set().contains(a[0]));
        assert(b.contains(a[0]));
        let j = choose|j: int| 0 <= j < b.len() && b[j] == a[0];
        assert(b[0] <= b[j]);
        assert(a[0] == b[0]);
        assert(a.drop_first().to_set() =~= a.to_set().remove(a[0])) by {
            assert forall|x: u64| a.drop_first().to_set().contains(x)
                implies a.to_set().remove(a[0]).contains(x) by {
                let k = choose|k: int| 0 <= k < a.drop_first().len() && a.drop_first()[k] == x;
                assert(a[k + 1] == x);
                assert(a[0] < a[k + 1]);
                assert(a.contains(x));
            }
            assert forall|x: u64| a.to_set().remove(a[0]).contains(x)
                implies a.drop_first().to_set().contains(x) by {
                let k = choose|k: int| 0 <= k < a.len() && a[k] == x;
                assert(k != 0);
                assert(a.drop_first()[k - 1] == x);
                assert(a.drop_first().contains(x));
            }
        }
        assert(b.drop_first().to_set() =~= b.to_set().remove(b[0])) by {
            assert forall|x: u64| b.drop_first().to_set().contains(x)
                implies b.to_set().remove(b[0]).contains(x) by {
                let k = choose|k: int| 0 <= k < b.drop_first().len() && b.drop_first()[k] == x;
                assert(b[k + 1] == x);
                assert(b[0] < b[k + 1]);
                assert(b.contains(x));
            }
            assert forall|x: u64| b.to_set().remove(b[0]).contains(x)
                implies b.drop_first().to_set().contains(x) by {
                let k = choose|k: int| 0 <= k < b.len() && b[k] == x;
                assert(k != 0);
                assert(b.drop_first()[k - 1] == x);
                assert(b.drop_first().contains(x));
            }
        }
        lemma_ascending64_unique(a.drop_first(), b.drop_first());
        assert(a =~= Seq::empty().push(a.first()) + a.drop_first());
        assert(b =~= Seq::empty().push(b.first()) + b.drop_first());
        assert(a =~= b);
    }
}

/// Extending a prefix by one element inserts that element into the
/// prefix's member set.
pub proof fn lemma_take_to_set_push(s: Seq<u32>, k: int)
    requires
        0 <= k < s.len(),
    ensures
        s.take(k + 1).to_set() == s.take(k).to_set().insert(s[k]),
{
    assert forall|x: u32| s.take(k + 1).to_set().contains(x) implies s.take(k).to_set().insert(
        s[k],
    ).contains(x) by {
        let q = choose|q: int| 0 <= q < k + 1 && #[trigger] s.take(k + 1)[q] == x;
        if q < k {
            assert(s.take(k)[q] == x);
            assert(s.take(k).contains(x));
        }
    }
    assert forall|x: u32| s.take(k).to_set().insert(s[k]).contains(x) implies s.take(
        k + 1,
    ).to_set().contains(x) by {
        if x == s[k] {
            assert(s.take(k + 1)[k] == x);
            assert(s.take(k + 1).contains(x));
        } else {
            let q = choose|q: int| 0 <= q < k && #[trigger] s.take(k)[q] == x;
            assert(s.take(k + 1)[q] == x);
            assert(s.take(k + 1).contains(x));
        }
    }
    assert(s.take(k + 1).to_set() =~= s.take(k).to_set().insert(s[k]));
}

/// Merge two strictly ascending vectors into the strictly ascending vector
/// of their set union.
pub fn merge_ascending(a: &Vec<u32>, b: &Vec<u32>) -> (r: Vec<u32>)
    requires
        ascending(a@),
        ascending(b@),
    ensures
        ascending(r@),
        r@.to_set() == a@.to_set().union(b@.to_set()),
{
    let mut r: Vec<u32> = Vec::new();
    let mut i: usize = 0;
    let mut j: usize = 0;
    while i < a.len() || j < b.len()
        invariant
            ascending(a@),
            ascending(b@),
            i <= a.len(),
            j <= b.len(),
            ascending(r@),
            r@.to_set() =~= a@.take(i as int).to_set().union(b@.take(j as int).to_set()),
            forall|k: int| i <= k < a@.len() ==> r@.len() == 0 || r@.last() < a@[k],
            forall|k: int| j <= k < b@.len() ==> r@.len() == 0 || r@.last() < b@[k],
        decreases a.len() - i + b.len() - j,
    {
        let ghost old_r = r@;
        let ghost old_i = i as int;
        let ghost old_j = j as int;
        let next: u32;
        if i < a.len() && (j >= b.len() || a[i] <= b[j]) {
            next = a[i];
            proof {
                assert(a@.take(i + 1).drop_last() =~= a@.take(i as int));
            }
            i = i + 1;
            if j < b.len() && b[j] == next {
                proof {
                    assert(b@.take(j + 1).drop_last() =~= b@.take(j as int));
                }
                j = j + 1;
            }
        } else {
            next = b[j];
            proof {
                assert(b@.take(j + 1).drop_last() =~= b@.take(j as int));
            }
            j = j + 1;
        }
        r.push(next);
        proof {
            assert(r@.drop_last() =~= old_r);
            assert(r@[r@.len() - 1] == next);
            assert(forall|m: int| 0 <= m < old_r.len() ==> r@[m] == old_r[m]);
            // Take-prefixes only grow, elementwise.
            assert forall|x: u32| a@.take(old_i).to_set().contains(x)
                implies a@.take(i as int).to_set().contains(x) by {
                let k = choose|k: int| 0 <= k < old_i && a@.take(old_i)[k] == x;
                assert(a@.take(i as int)[k] == x);
                assert(a@.take(i as int).contains(x));
            }
            assert forall|x: u32| b@.take(old_j).to_set().contains(x)
                implies b@.take(j as int).to_set().contains(x) by {
                let k = choose|k: int| 0 <= k < old_j && b@.take(old_j)[k] == x;
                assert(b@.take(j as int)[k] == x);
                assert(b@.take(j as int).contains(x));
            }
            // The new element is in one of the new prefixes.
            assert(a@.take(i as int).to_set().contains(next)
                || b@.take(j as int).to_set().contains(next)) by {
                if i > old_i {
                    assert(a@.take(i as int)[i - 1] == next);
                    assert(a@.take(i as int).contains(next));
                } else {
                    assert(b@.take(j as int)[j - 1] == next);
                    assert(b@.take(j as int).contains(next));
                }
            }
            assert forall|x: u32| r@.to_set().contains(x) implies
                a@.take(i as int).to_set().union(b@.take(j as int).to_set()).contains(x) by {
                let k = choose|k: int| 0 <= k < r@.len() && r@[k] == x;
                if k < old_r.len() {
                    assert(old_r[k] == x);
                    assert(old_r.contains(x));
                    assert(old_r.to_set().contains(x));
                } else {
                    assert(x == next);
                }
            }
            assert forall|x: u32|
                a@.take(i as int).to_set().union(b@.take(j as int).to_set()).contains(x)
                implies r@.to_set().contains(x) by {
                if x == next {
                    assert(r@.contains(x));
                } else if a@.take(i as int).to_set().contains(x) {
                    let k = choose|k: int| 0 <= k < i && a@.take(i as int)[k] == x;
                    assert(k < old_i || a@[k] == next) by {
                        if k >= old_i {
                            assert(k == i - 1);
                        }
                    }
                    assert(a@.take(old_i)[k] == x);
                    assert(a@.take(old_i).contains(x));
                    assert(old_r.to_set().contains(x));
                    let m = choose|m: int| 0 <= m < old_r.len() && old_r[m] == x;
                    assert(r@[m] == x);
                    assert(r@.contains(x));
                } else {
                    let k = choose|k: int| 0 <= k < j && b@.take(j as int)[k] == x;
                    assert(k < old_j || b@[k] == next) by {
                        if k >= old_j {
                            assert(k == j - 1);
                        }
                    }
                    assert(b@.take(old_j)[k] == x);
                    assert(b@.take(old_j).contains(x));
                    assert(old_r.to_set().contains(x));
                    let m = choose|m: int| 0 <= m < old_r.len() && old_r[m] == x;
                    assert(r@[m] == x);
                    assert(r@.contains(x));
                }
            }
            assert(r@.to_set() =~= a@.take(i as int).to_set().union(b@.take(j as int).to_set()));
        }
    }
    proof {
        assert(a@.take(a@.len() as int) =~= a@);
        assert(b@.take(b@.len() as int) =~= b@);
    }
    r
}

} // verus!
