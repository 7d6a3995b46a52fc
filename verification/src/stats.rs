//! The consistency checker's scan: raw key/value byte totals over a
//! partition's rows, and, in deep mode, decoding of every value as a
//! compact index set, a size histogram, and the distinct dataset count.

use crate::datasets::{decoded_set, Datasets};
use crate::Error;
use histogram::Histogram;
use vstd::prelude::*;

verus! {

#[verifier::external_type_specification]
#[verifier::external_body]
pub struct ExHistogram(Histogram);

/// Relies on `histogram::Histogram::new`: grouping power 12 with max value
/// power 64 is a valid configuration covering all of `u64`.
#[verifier::external_body]
fn hist_new() -> Histogram {
    Histogram::new(12, 64).unwrap()
}

/// Relies on `histogram::Histogram::increment`: records one sample into
/// the bucket containing `value`. With the max value power used here every
/// value is in range; the success flag is returned, not promised, since a
/// histogram's configuration is invisible to the verifier.
#[verifier::external_body]
fn hist_increment(h: &mut Histogram, value: u64) -> bool {
    h.increment(value).is_ok()
}

/// The byte total of the keys (or values) of the first `k` rows.
pub open spec fn sum_key_lens(rows: Seq<(Vec<u8>, Vec<u8>)>, k: int) -> nat
    decreases k,
{
    if k <= 0 {
        0
    } else {
        sum_key_lens(rows, k - 1) + rows[k - 1].0@.len()
    }
}

/// The byte total of the values of the first `k` rows.
pub open spec fn sum_value_lens(rows: Seq<(Vec<u8>, Vec<u8>)>, k: int) -> nat
    decreases k,
{
    if k <= 0 {
        0
    } else {
        sum_value_lens(rows, k - 1) + rows[k - 1].1@.len()
    }
}

/// The union of the member sets the first `k` row values decode to.
pub open spec fn decoded_union(rows: Seq<(Vec<u8>, Vec<u8>)>, k: int) -> Set<u32>
    decreases k,
{
    if k <= 0 {
        Set::empty()
    } else {
        decoded_union(rows, k - 1).union(
            match decoded_set(rows[k - 1].1@) {
                Some(s) => s,
                None => Set::empty(),
            },
        )
    }
}

/// Statistics of one scanned partition.
pub struct DbStats {
    pub stat_total_datasets: u64,
    pub stat_total_keys: usize,
    pub stat_kcount: usize,
    pub stat_vcount: usize,
    pub stat_vcounts: Histogram,
}

impl DbStats {
    /// Distinct dataset indices seen across all decoded sets (deep mode
    /// only; zero otherwise).
    pub fn total_datasets(&self) -> (r: u64)
        ensures
            r == self.stat_total_datasets,
    {
        self.stat_total_datasets
    }

    /// The number of keys, assuming the partition's fixed eight-byte keys.
    pub fn total_keys(&self) -> (r: usize)
        ensures
            r == self.stat_total_keys,
    {
        self.stat_total_keys
    }

    /// Raw key bytes seen.
    pub fn kcount(&self) -> (r: usize)
        ensures
            r == self.stat_kcount,
    {
        self.stat_kcount
    }

    /// Raw value bytes seen.
    pub fn vcount(&self) -> (r: usize)
        ensures
            r == self.stat_vcount,
    {
        self.stat_vcount
    }

    /// The bounded-range histogram of decoded set sizes (deep mode only).
    pub fn vcounts(&self) -> &Histogram {
        &self.stat_vcounts
    }
}

/// The machine-word clamp of an unbounded byte total.
pub open spec fn clamped(total: nat) -> usize {
    if total <= usize::MAX {
        total as usize
    } else {
        usize::MAX
    }
}

/// Scans one partition's rows in order, always accumulating raw key and
/// value byte totals (saturating at the machine word). In deep (non-quick)
/// mode every value is additionally decoded as a compact index set — an
/// undecodable value is a fatal corruption error, not a skipped record — a
/// histogram of set sizes is filled, and all decoded sets are folded into
/// one union whose size is the distinct dataset count. The scan fails
/// exactly on the first undecodable value of a deep check.
pub fn stats_for_cf(rows: &Vec<(Vec<u8>, Vec<u8>)>, deep_check: bool, quick: bool) -> (r: Result<
    DbStats,
    Error,
>)
    ensures
        match r {
            Ok(st) => {
                &&& st.stat_kcount == clamped(sum_key_lens(rows@, rows@.len() as int))
                &&& st.stat_vcount == clamped(sum_value_lens(rows@, rows@.len() as int))
                &&& st.stat_total_keys == st.stat_kcount / 8
                &&& (!quick && deep_check ==> {
                    &&& forall|k: int|
                        0 <= k < rows@.len() ==> decoded_set(#[trigger] rows@[k].1@) is Some
                    &&& st.stat_total_datasets == decoded_union(rows@, rows@.len() as int).len()
                })
                &&& (quick || !deep_check ==> st.stat_total_datasets == 0)
            },
            Err(e) => e == Error::CorruptEntry,
        },
        (r is Err <==> (!quick && deep_check && exists|k: int|
            0 <= k < rows@.len() && decoded_set(#[trigger] rows@[k].1@) is None)),
{
    let mut kcount: u128 = 0;
    let mut vcount: u128 = 0;
    let mut vcounts = hist_new();
    let mut datasets = Datasets::Empty;
    let mut k: usize = 0;
    proof {
        assert(datasets.set() =~= decoded_union(rows@, 0));
    }
    while k < rows.len()
        invariant
            k <= rows@.len(),
            kcount == sum_key_lens(rows@, k as int),
            vcount == sum_value_lens(rows@, k as int),
            kcount <= k * 0x1_0000_0000_0000_0000u128,
            vcount <= k * 0x1_0000_0000_0000_0000u128,
            datasets.wf(),
            !quick && deep_check ==> {
                &&& forall|j: int| 0 <= j < k ==> decoded_set(#[trigger] rows@[j].1@) is Some
                &&& datasets.set() == decoded_union(rows@, k as int)
            },
            quick || !deep_check ==> datasets is Empty,
        decreases rows@.len() - k,
    {
        let kl = rows[k].0.len();
        let vl = rows[k].1.len();
        proof {
            assert(kl < 0x1_0000_0000_0000_0000 && vl < 0x1_0000_0000_0000_0000);
        }
        kcount = kcount + (kl as u128);
        vcount = vcount + (vl as u128);
        if !quick && deep_check {
            let v = match Datasets::from_slice(rows[k].1.as_slice()) {
                Some(v) => v,
                None => {
                    return Err(Error::CorruptEntry);
                },
            };
            let size = v.len64();
            hist_increment(&mut vcounts, size);
            datasets = datasets.union(v);
            proof {
                assert(datasets.set() =~= decoded_union(rows@, k as int + 1));
            }
        } else {
            proof {
                assert(datasets.set() =~= Set::<u32>::empty());
            }
        }
        k = k + 1;
    }
    let total_datasets = datasets.len64();
    proof {
        if quick || !deep_check {
            assert(datasets.set() =~= Set::<u32>::empty());
        }
    }
    let kc: usize = if kcount > usize::MAX as u128 {
        usize::MAX
    } else {
        kcount as usize
    };
    let vc: usize = if vcount > usize::MAX as u128 {
        usize::MAX
    } else {
        vcount as usize
    };
    Ok(
        DbStats {
            stat_total_datasets: total_datasets,
            stat_total_keys: kc / 8,
            stat_kcount: kc,
            stat_vcount: vc,
            stat_vcounts: vcounts,
        },
    )
}

} // verus!
